//! File names and paths as character sequences: the type of a file, hidden
//! names, and joining a name onto a directory's path.

use vstd::prelude::*;

verus! {

/// The type given to a file whose name holds no dot.
pub open spec fn unknown_type() -> Seq<char> {
    seq!['u', 'n', 'k', 'n', 'o', 'w', 'n']
}

/// `k` is the position of the last dot of `name`.
pub open spec fn is_last_dot(name: Seq<char>, k: int) -> bool {
    &&& 0 <= k < name.len()
    &&& name[k] == '.'
    &&& forall|j: int| k < j < name.len() ==> name[j] != '.'
}

/// The type of a file: what follows the last dot of its name, and
/// `unknown` where the name holds no dot.
pub open spec fn extension(name: Seq<char>) -> Seq<char> {
    if exists|k: int| is_last_dot(name, k) {
        let k = choose|k: int| is_last_dot(name, k);
        name.subrange(k + 1, name.len() as int)
    } else {
        unknown_type()
    }
}

/// A name is hidden when it starts with a dot.
pub open spec fn hidden(name: Seq<char>) -> bool {
    name.len() > 0 && name[0] == '.'
}

/// The path of `name` inside the directory `base`.
pub open spec fn joined(base: Seq<char>, name: Seq<char>) -> Seq<char> {
    base + seq!['/'] + name
}

/// A name has at most one last dot.
pub proof fn lemma_last_dot_unique(name: Seq<char>, k1: int, k2: int)
    requires
        is_last_dot(name, k1),
        is_last_dot(name, k2),
    ensures
        k1 == k2,
{
}

/// A name without a dot has the type `unknown`.
pub proof fn lemma_no_dot_is_unknown(name: Seq<char>)
    requires
        !name.contains('.'),
    ensures
        extension(name) == unknown_type(),
{
    assert forall|k: int| !is_last_dot(name, k) by {
        if 0 <= k < name.len() && name[k] == '.' {
            assert(name.contains('.'));
        }
    }
}

/// A name whose only dot is its first character has the rest of the name as
/// its type.
pub proof fn lemma_dotfile_extension(name: Seq<char>)
    requires
        name.len() > 0,
        name[0] == '.',
        forall|j: int| 0 < j < name.len() ==> name[j] != '.',
    ensures
        extension(name) == name.subrange(1, name.len() as int),
{
    assert(is_last_dot(name, 0));
    let k = choose|k: int| is_last_dot(name, k);
    lemma_last_dot_unique(name, 0, k);
}

/// A name with a dot at `k` and none behind it has what follows `k` as its type.
pub proof fn lemma_extension_after_last_dot(name: Seq<char>, k: int)
    requires
        is_last_dot(name, k),
    ensures
        extension(name) == name.subrange(k + 1, name.len() as int),
{
    let c = choose|c: int| is_last_dot(name, c);
    lemma_last_dot_unique(name, k, c);
}

/// Joining two names onto one directory gives one path only for one name.
pub proof fn lemma_joined_injective(base: Seq<char>, a: Seq<char>, b: Seq<char>)
    requires
        joined(base, a) == joined(base, b),
    ensures
        a == b,
{
    let p = base + seq!['/'];
    assert(joined(base, a).subrange(p.len() as int, joined(base, a).len() as int) =~= a);
    assert(joined(base, b).subrange(p.len() as int, joined(base, b).len() as int) =~= b);
}

/// Reads the type of a file from its name.
pub fn extension_of(name: &str) -> (r: String)
    ensures
        r@ == extension(name@),
{
    let n: usize = name.unicode_len();
    let mut i: usize = n;
    while i > 0
        invariant
            i <= n,
            n == name@.len(),
            forall|j: int| i <= j < n ==> name@[j] != '.',
        decreases i,
    {
        if name.get_char(i - 1) == '.' {
            proof {
                lemma_extension_after_last_dot(name@, i - 1);
            }
            return String::from_str(name.substring_char(i, n));
        }
        i -= 1;
    }
    proof {
        assert(!name@.contains('.'));
        lemma_no_dot_is_unknown(name@);
        reveal_strlit("unknown");
        assert("unknown"@ =~= unknown_type());
    }
    String::from_str("unknown")
}

/// Tells whether a name starts with a dot.
pub fn is_hidden(name: &str) -> (r: bool)
    ensures
        r == hidden(name@),
{
    name.unicode_len() > 0 && name.get_char(0) == '.'
}

/// Builds the path of `name` inside the directory `base`.
pub fn join(base: &str, name: &str) -> (r: String)
    ensures
        r@ == joined(base@, name@),
{
    let mut path = String::from_str(base);
    path.append("/");
    path.append(name);
    proof {
        reveal_strlit("/");
        assert("/"@ =~= seq!['/']);
    }
    path
}

} // verus!
