//! How the end of a command reads: in its row of the tree and in the
//! summary.

use vstd::prelude::*;
use crate::paint::no_escape;
use crate::span::ThreadEndReason;
use crate::text::{lemma_decimal_digits, push_signed, signed_decimal};

verus! {

/// How the end of a command shows in its row.
pub open spec fn status_text(reason: Option<ThreadEndReason>) -> Seq<char> {
    match reason {
        None => seq!['[', 'r', 'u', 'n', 'n', 'i', 'n', 'g', ']'],
        Some(ThreadEndReason::ExitCode(code)) => seq!['[', 'r', 'c', '='] + signed_decimal(
            code as int,
        ) + seq![']'],
        Some(ThreadEndReason::LateExitCode(code)) => seq!['[', 'r', 'c', '='] + signed_decimal(
            code as int,
        ) + seq![']'],
        Some(ThreadEndReason::Signal(signal)) => seq![
            '[',
            'k',
            'i',
            'l',
            'l',
            'e',
            'd',
            ' ',
            'b',
            'y',
            ' ',
        ] + signed_decimal(signal as int) + seq![']'],
        Some(ThreadEndReason::Exec) => seq!['[', 'e', 'x', 'e', 'c', ']'],
    }
}

/// How the end of the root shows in the summary.
pub open spec fn outcome_text(reason: Option<ThreadEndReason>) -> Seq<char> {
    match reason {
        None => seq!['S', 't', 'i', 'l', 'l', ' ', 'r', 'u', 'n', 'n', 'i', 'n', 'g'],
        Some(ThreadEndReason::ExitCode(code)) => seq!['E', 'x', 'i', 't', 'e', 'd', ' ']
            + signed_decimal(code as int),
        Some(ThreadEndReason::LateExitCode(code)) => seq!['E', 'x', 'i', 't', 'e', 'd', ' ']
            + signed_decimal(code as int),
        Some(ThreadEndReason::Signal(signal)) => seq!['K', 'i', 'l', 'l', 'e', 'd', ' ', 'b', 'y', ' ']
            + signed_decimal(signal as int),
        Some(ThreadEndReason::Exec) => seq![
            'U',
            'n',
            'k',
            'n',
            'o',
            'w',
            'n',
            ' ',
            't',
            'e',
            'r',
            'm',
            'i',
            'n',
            'a',
            't',
            'i',
            'o',
            'n',
            ' ',
            'r',
            'e',
            'a',
            's',
            'o',
            'n',
        ],
    }
}

/// Whether the end of a command is one that failed: an exit code other
/// than zero, or a signal. Such an end is shown in bright red.
pub open spec fn is_failure(reason: Option<ThreadEndReason>) -> bool {
    match reason {
        Some(ThreadEndReason::ExitCode(code)) => code != 0,
        Some(ThreadEndReason::LateExitCode(code)) => code != 0,
        Some(ThreadEndReason::Signal(_)) => true,
        _ => false,
    }
}

/// Whether the end of the root is shown in bright red in the summary: a
/// failure, or an end by exec, of which the summary knows no outcome.
pub open spec fn is_bad_outcome(reason: Option<ThreadEndReason>) -> bool {
    is_failure(reason) || reason == Some(ThreadEndReason::Exec)
}

/// Whether the end of a command is one that failed.
pub fn failed(reason: Option<ThreadEndReason>) -> (failure: bool)
    ensures
        failure == is_failure(reason),
{
    match reason {
        Some(ThreadEndReason::ExitCode(code)) => code != 0,
        Some(ThreadEndReason::LateExitCode(code)) => code != 0,
        Some(ThreadEndReason::Signal(_)) => true,
        _ => false,
    }
}

/// The status of a command as its row shows it, before any colour.
pub fn status_of(reason: Option<ThreadEndReason>) -> (text: String)
    ensures
        text@ == status_text(reason),
        no_escape(text@),
{
    let mut text = String::new();
    proof {
        reveal_strlit("[running]");
        reveal_strlit("[rc=");
        reveal_strlit("[killed by ");
        reveal_strlit("[exec]");
        reveal_strlit("]");
        assert("[running]"@ =~= seq!['[', 'r', 'u', 'n', 'n', 'i', 'n', 'g', ']']);
        assert("[rc="@ =~= seq!['[', 'r', 'c', '=']);
        assert("[killed by "@ =~= seq!['[', 'k', 'i', 'l', 'l', 'e', 'd', ' ', 'b', 'y', ' ']);
        assert("[exec]"@ =~= seq!['[', 'e', 'x', 'e', 'c', ']']);
        assert("]"@ =~= seq![']']);
    }
    match reason {
        None => {
            text.append("[running]");
            assert(text@ =~= status_text(reason));
        },
        Some(ThreadEndReason::ExitCode(code)) => {
            text.append("[rc=");
            assert(text@ =~= seq!['[', 'r', 'c', '=']);
            push_signed(&mut text, code as i64);
            text.append("]");
            proof {
                lemma_signed_no_escape(code as int);
            }
        },
        Some(ThreadEndReason::LateExitCode(code)) => {
            text.append("[rc=");
            assert(text@ =~= seq!['[', 'r', 'c', '=']);
            push_signed(&mut text, code as i64);
            text.append("]");
            proof {
                lemma_signed_no_escape(code as int);
            }
        },
        Some(ThreadEndReason::Signal(signal)) => {
            text.append("[killed by ");
            assert(text@ =~= seq!['[', 'k', 'i', 'l', 'l', 'e', 'd', ' ', 'b', 'y', ' ']);
            push_signed(&mut text, signal as i64);
            text.append("]");
            proof {
                lemma_signed_no_escape(signal as int);
            }
        },
        Some(ThreadEndReason::Exec) => {
            text.append("[exec]");
            assert(text@ =~= status_text(reason));
        },
    }
    text
}

/// The outcome of the root as the summary shows it, before any colour.
pub fn outcome_of(reason: Option<ThreadEndReason>) -> (text: String)
    ensures
        text@ == outcome_text(reason),
        no_escape(text@),
{
    let mut text = String::new();
    proof {
        reveal_strlit("Still running");
        reveal_strlit("Exited ");
        reveal_strlit("Killed by ");
        reveal_strlit("Unknown termination reason");
        assert("Still running"@ =~= outcome_text(None));
        assert("Exited "@ =~= seq!['E', 'x', 'i', 't', 'e', 'd', ' ']);
        assert("Killed by "@ =~= seq!['K', 'i', 'l', 'l', 'e', 'd', ' ', 'b', 'y', ' ']);
        assert("Unknown termination reason"@ =~= outcome_text(Some(ThreadEndReason::Exec)));
    }
    match reason {
        None => {
            text.append("Still running");
            assert(text@ =~= outcome_text(reason));
        },
        Some(ThreadEndReason::ExitCode(code)) => {
            text.append("Exited ");
            assert(text@ =~= seq!['E', 'x', 'i', 't', 'e', 'd', ' ']);
            push_signed(&mut text, code as i64);
            proof {
                lemma_signed_no_escape(code as int);
            }
        },
        Some(ThreadEndReason::LateExitCode(code)) => {
            text.append("Exited ");
            assert(text@ =~= seq!['E', 'x', 'i', 't', 'e', 'd', ' ']);
            push_signed(&mut text, code as i64);
            proof {
                lemma_signed_no_escape(code as int);
            }
        },
        Some(ThreadEndReason::Signal(signal)) => {
            text.append("Killed by ");
            assert(text@ =~= seq!['K', 'i', 'l', 'l', 'e', 'd', ' ', 'b', 'y', ' ']);
            push_signed(&mut text, signal as i64);
            proof {
                lemma_signed_no_escape(signal as int);
            }
        },
        Some(ThreadEndReason::Exec) => {
            text.append("Unknown termination reason");
            assert(text@ =~= outcome_text(reason));
        },
    }
    text
}

/// A signed numeral holds no escape character.
proof fn lemma_signed_no_escape(n: int)
    ensures
        no_escape(signed_decimal(n)),
{
    if n < 0 {
        lemma_decimal_digits((-n) as nat);
    } else {
        lemma_decimal_digits(n as nat);
    }
}

} // verus!
