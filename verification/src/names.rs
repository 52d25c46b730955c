//! The name under which runs of a command are grouped. A command that only
//! wraps another one, such as `env` or `python`, is named together with
//! what it wraps. This is a rule of thumb and nothing else depends on it.

use vstd::prelude::*;

verus! {

/// The place of the last `c` in `s`, or -1 when `s` holds none.
pub open spec fn last_index_of(s: Seq<char>, c: char) -> int
    decreases s.len(),
{
    if s.len() == 0 {
        -1
    } else if s.last() == c {
        s.len() - 1
    } else {
        last_index_of(s.drop_last(), c)
    }
}

/// What follows the last `/` of a path; the path itself when it has none.
pub open spec fn basename(path: Seq<char>) -> Seq<char> {
    path.subrange(last_index_of(path, '/') + 1, path.len() as int)
}

/// Whether `s` begins with `prefix`.
pub open spec fn has_prefix(s: Seq<char>, prefix: Seq<char>) -> bool {
    prefix.len() <= s.len() && s.subrange(0, prefix.len() as int) == prefix
}

/// Whether a command of this base name runs a shell.
pub open spec fn is_shell(base: Seq<char>) -> bool {
    base == seq!['s', 'h'] || base == seq!['b', 'a', 's', 'h']
}

/// Whether a command of this base name only wraps another command.
pub open spec fn is_wrapper(base: Seq<char>) -> bool {
    ||| base == seq!['e', 'n', 'v']
    ||| base == seq!['z', 'i', 'g']
    ||| base == seq!['t', 'i', 'm', 'e']
    ||| base == seq!['c', 'a', 'r', 'g', 'o']
    ||| is_shell(base)
    ||| has_prefix(base, seq!['p', 'y', 't', 'h', 'o', 'n'])
}

/// Whether an argument is a flag: it begins with a dash.
pub open spec fn is_flag(arg: Seq<char>) -> bool {
    arg.len() > 0 && arg[0] == '-'
}

/// What a wrapper runs, looked for from argument `i` on: the first
/// argument that is no flag, where `-C` takes the argument after it along.
/// The empty word when the arguments run out. `None` when a shell is given
/// its script by `-c`, for a script names nothing.
pub open spec fn wrapped_word(argv: Seq<Seq<char>>, shell: bool, i: int) -> Option<Seq<char>>
    decreases argv.len() - i,
{
    if i < 0 || i >= argv.len() {
        Some(Seq::empty())
    } else if shell && argv[i] == seq!['-', 'c'] {
        None
    } else if !is_flag(argv[i]) {
        Some(argv[i])
    } else if argv[i] == seq!['-', 'C'] {
        if i + 1 >= argv.len() {
            Some(Seq::empty())
        } else {
            wrapped_word(argv, shell, i + 2)
        }
    } else {
        wrapped_word(argv, shell, i + 1)
    }
}

/// The name under which a command with the argument vector `argv` is
/// grouped: its first argument as it stands; for a wrapper, that argument,
/// a blank and the argument it wraps; for a shell that is given a script,
/// the shell's base name alone. Empty for an empty argument vector.
pub open spec fn command_name(argv: Seq<Seq<char>>) -> Seq<char> {
    if argv.len() == 0 {
        Seq::empty()
    } else {
        let base = basename(argv[0]);
        if is_wrapper(base) {
            match wrapped_word(argv, is_shell(base), 1) {
                Some(word) => argv[0] + seq![' '] + word,
                None => base,
            }
        } else {
            argv[0]
        }
    }
}

/// Whether two texts are the same.
pub fn text_is(s: &str, other: &str) -> (same: bool)
    ensures
        same == (s@ == other@),
{
    let n = s.unicode_len();
    if n != other.unicode_len() {
        return false;
    }
    let mut i: usize = 0;
    while i < n
        invariant
            i <= n,
            n == s@.len(),
            n == other@.len(),
            s@.subrange(0, i as int) == other@.subrange(0, i as int),
        decreases n - i,
    {
        if s.get_char(i) != other.get_char(i) {
            assert(s@[i as int] != other@[i as int]);
            return false;
        }
        assert(s@.subrange(0, i + 1) =~= s@.subrange(0, i as int).push(s@[i as int]));
        assert(other@.subrange(0, i + 1) =~= other@.subrange(0, i as int).push(other@[i as int]));
        i = i + 1;
    }
    assert(s@.subrange(0, n as int) =~= s@);
    assert(other@.subrange(0, n as int) =~= other@);
    true
}

/// Whether `s` begins with `prefix`.
pub fn starts_with(s: &str, prefix: &str) -> (starts: bool)
    ensures
        starts == has_prefix(s@, prefix@),
{
    let n = prefix.unicode_len();
    if s.unicode_len() < n {
        return false;
    }
    text_is(s.substring_char(0, n), prefix)
}

fn last_slash(path: &str) -> (place: Option<usize>)
    ensures
        match place {
            Some(i) => i == last_index_of(path@, '/') && i < path@.len(),
            None => last_index_of(path@, '/') == -1,
        },
{
    let ghost s = path@;
    let n = path.unicode_len();
    let mut place: Option<usize> = None;
    let mut i: usize = 0;
    assert(s.subrange(0, 0).len() == 0);
    for c in it: path.chars()
        invariant
            it.seq() == s,
            n == s.len(),
            i == it.index(),
            i <= n,
            match place {
                Some(at) => at == last_index_of(s.subrange(0, i as int), '/') && at < i,
                None => last_index_of(s.subrange(0, i as int), '/') == -1,
            },
    {
        let ghost longer = s.subrange(0, i + 1);
        assert(longer.drop_last() =~= s.subrange(0, i as int));
        assert(longer.last() == c);
        if c == '/' {
            place = Some(i);
        }
        i = i + 1;
    }
    assert(s.subrange(0, n as int) =~= s);
    place
}

/// What follows the last `/` of `path`.
pub fn base_of(path: &str) -> (base: &str)
    ensures
        base@ == basename(path@),
{
    let n = path.unicode_len();
    match last_slash(path) {
        Some(i) => path.substring_char(i + 1, n),
        None => path.substring_char(0, n),
    }
}

fn is_flag_text(arg: &str) -> (flag: bool)
    ensures
        flag == is_flag(arg@),
{
    arg.unicode_len() > 0 && arg.get_char(0) == '-'
}

fn is_shell_name(base: &str) -> (shell: bool)
    ensures
        shell == is_shell(base@),
{
    proof {
        reveal_strlit("sh");
        reveal_strlit("bash");
        assert("sh"@ =~= seq!['s', 'h']);
        assert("bash"@ =~= seq!['b', 'a', 's', 'h']);
    }
    text_is(base, "sh") || text_is(base, "bash")
}

fn is_wrapper_name(base: &str) -> (wrapper: bool)
    ensures
        wrapper == is_wrapper(base@),
{
    proof {
        reveal_strlit("env");
        reveal_strlit("zig");
        reveal_strlit("time");
        reveal_strlit("cargo");
        reveal_strlit("python");
        assert("env"@ =~= seq!['e', 'n', 'v']);
        assert("zig"@ =~= seq!['z', 'i', 'g']);
        assert("time"@ =~= seq!['t', 'i', 'm', 'e']);
        assert("cargo"@ =~= seq!['c', 'a', 'r', 'g', 'o']);
        assert("python"@ =~= seq!['p', 'y', 't', 'h', 'o', 'n']);
    }
    text_is(base, "env") || text_is(base, "zig") || text_is(base, "time") || text_is(base, "cargo")
        || is_shell_name(base) || starts_with(base, "python")
}

/// The name under which a command with the argument vector `argv` is
/// grouped.
pub fn normalized_name(argv: &Vec<String>) -> (name: String)
    ensures
        name@ == command_name(argv.deep_view()),
{
    let ghost args = argv.deep_view();
    assert(args.len() == argv@.len());
    assert forall|j: int| 0 <= j < argv@.len() implies #[trigger] args[j] == argv@[j]@ by {}
    if argv.len() == 0 {
        return String::new();
    }
    let first = argv[0].as_str();
    let base = base_of(first);
    if !is_wrapper_name(base) {
        return String::from_str(first);
    }
    let shell = is_shell_name(base);
    proof {
        reveal_strlit("-c");
        reveal_strlit("-C");
        reveal_strlit(" ");
        assert("-c"@ =~= seq!['-', 'c']);
        assert("-C"@ =~= seq!['-', 'C']);
        assert(" "@ =~= seq![' ']);
    }
    let mut i: usize = 1;
    while i < argv.len()
        invariant
            1 <= i,
            args == argv.deep_view(),
            args.len() == argv@.len(),
            forall|j: int| 0 <= j < argv@.len() ==> #[trigger] args[j] == argv@[j]@,
            wrapped_word(args, shell, i as int) == wrapped_word(args, shell, 1),
            first@ == args[0],
            base@ == basename(args[0]),
            shell == is_shell(base@),
            is_wrapper(base@),
            "-c"@ == seq!['-', 'c'],
            "-C"@ == seq!['-', 'C'],
            " "@ == seq![' '],
        decreases argv@.len() - i,
    {
        let arg = argv[i].as_str();
        assert(arg@ == args[i as int]);
        if shell && text_is(arg, "-c") {
            return String::from_str(base);
        }
        if !is_flag_text(arg) {
            let mut name = String::from_str(first);
            name.append(" ");
            name.append(arg);
            return name;
        }
        if text_is(arg, "-C") {
            if i == usize::MAX - 1 || i + 1 >= argv.len() {
                let mut name = String::from_str(first);
                name.append(" ");
                assert(name@ =~= args[0] + seq![' '] + Seq::<char>::empty());
                return name;
            }
            i = i + 2;
        } else {
            i = i + 1;
        }
    }
    let mut name = String::from_str(first);
    name.append(" ");
    assert(name@ =~= args[0] + seq![' '] + Seq::<char>::empty());
    name
}

} // verus!
