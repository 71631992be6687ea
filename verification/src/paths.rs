//! Path handling over plain strings: extracting a file name's extension and
//! presenting a path relative to a root.
//!
//! Paths are modelled as character sequences with `/` as the separator, the
//! form in which the walk and the observer deliver them.

use vstd::prelude::*;

verus! {

/// The suffix of `s` after the last occurrence of `c` (all of `s` when `c`
/// does not occur).
pub open spec fn after_last(s: Seq<char>, c: char) -> Seq<char>
    decreases s.len(),
{
    if s.len() == 0 {
        s
    } else if s.last() == c {
        Seq::<char>::empty()
    } else {
        after_last(s.drop_last(), c).push(s.last())
    }
}

/// Whether `c` occurs in `s` at an index of one or more.
pub open spec fn has_past_first(s: Seq<char>, c: char) -> bool {
    exists|i: int| 1 <= i < s.len() && s[i] == c
}

/// The extension of the file named by path `p`: the part of the final
/// component after its last dot, provided that dot is not the component's
/// leading character. A dotless name, and a hidden file such as
/// `.gitignore`, have none.
pub open spec fn extension_spec(p: Seq<char>) -> Option<Seq<char>> {
    let name = after_last(p, '/');
    if has_past_first(name, '.') {
        Some(after_last(name, '.'))
    } else {
        None
    }
}

/// When every index past `i` is free of `c` and `s[i] == c`, the suffix
/// after the last `c` is everything past `i`.
proof fn lemma_after_last_found(s: Seq<char>, c: char, i: int)
    requires
        0 <= i < s.len(),
        s[i] == c,
        forall|j: int| i < j < s.len() ==> s[j] != c,
    ensures
        after_last(s, c) =~= s.subrange(i + 1, s.len() as int),
    decreases s.len(),
{
    if i == s.len() - 1 {
    } else {
        lemma_after_last_found(s.drop_last(), c, i);
    }
}

/// When `c` does not occur in `s`, the suffix after the last `c` is `s`.
proof fn lemma_after_last_absent(s: Seq<char>, c: char)
    requires
        forall|j: int| 0 <= j < s.len() ==> s[j] != c,
    ensures
        after_last(s, c) =~= s,
    decreases s.len(),
{
    if s.len() > 0 {
        lemma_after_last_absent(s.drop_last(), c);
    }
}

/// The index just past the last occurrence of `c` in `s`, or zero.
fn find_suffix_start(s: &str, c: char) -> (r: usize)
    ensures
        0 <= r <= s@.len(),
        after_last(s@, c) =~= s@.subrange(r as int, s@.len() as int),
        forall|j: int| r <= j < s@.len() ==> s@[j] != c,
        r > 0 ==> s@[r - 1] == c,
{
    let len = s.unicode_len();
    let mut k = len;
    while k > 0 && s.get_char(k - 1) != c
        invariant
            0 <= k <= len,
            len == s@.len(),
            forall|j: int| k <= j < s@.len() ==> s@[j] != c,
        decreases k,
    {
        k = k - 1;
    }
    proof {
        if k > 0 {
            lemma_after_last_found(s@, c, k - 1);
        } else {
            lemma_after_last_absent(s@, c);
        }
    }
    k
}

/// The extension of the path `p`, per `extension_spec`.
pub fn extension_of(p: &str) -> (r: Option<String>)
    ensures
        match r {
            Some(e) => extension_spec(p@) == Some(e@),
            None => extension_spec(p@) is None,
        },
{
    let len = p.unicode_len();
    let name_start = find_suffix_start(p, '/');
    let name = p.substring_char(name_start, len);
    let name_len = len - name_start;
    let dot_start = find_suffix_start(name, '.');
    if dot_start >= 2 {
        // the last dot sits at an index of one or more within the name
        assert(has_past_first(name@, '.'));
        Some(String::from_str(name.substring_char(dot_start, name_len)))
    } else {
        proof {
            if has_past_first(name@, '.') {
                let i = choose|i: int| 1 <= i < name@.len() && name@[i] == '.';
                assert(name@[i] == '.');
            }
        }
        None
    }
}

/// `root` is a path prefix of `p`: it is a leading character sequence and
/// the cut falls on a component boundary.
pub open spec fn is_path_prefix(root: Seq<char>, p: Seq<char>) -> bool {
    &&& root.len() <= p.len()
    &&& p.take(root.len() as int) == root
    &&& {
        ||| root.len() == p.len()
        ||| p[root.len() as int] == '/'
        ||| (root.len() > 0 && root.last() == '/')
    }
}

/// The count of leading `/` characters in `s`.
pub open spec fn leading_slashes(s: Seq<char>) -> int
    decreases s.len(),
{
    if s.len() > 0 && s[0] == '/' {
        1 + leading_slashes(s.skip(1))
    } else {
        0
    }
}

/// `p` presented relative to `root`: with `root` and the separating slashes
/// stripped when `root` is a path prefix, and unchanged otherwise.
pub open spec fn rel_path_spec(p: Seq<char>, root: Seq<char>) -> Seq<char> {
    if is_path_prefix(root, p) {
        let rest = p.skip(root.len() as int);
        rest.skip(leading_slashes(rest))
    } else {
        p
    }
}

/// Whether `root` is a path prefix of `p`.
pub fn check_path_prefix(root: &str, p: &str) -> (r: bool)
    ensures
        r == is_path_prefix(root@, p@),
{
    let rl = root.unicode_len();
    let pl = p.unicode_len();
    if rl > pl {
        return false;
    }
    let mut i: usize = 0;
    while i < rl
        invariant
            0 <= i <= rl,
            rl == root@.len(),
            pl == p@.len(),
            rl <= pl,
            forall|j: int| 0 <= j < i ==> p@[j] == root@[j],
        decreases rl - i,
    {
        if p.get_char(i) != root.get_char(i) {
            proof {
                assert(p@.take(rl as int)[i as int] != root@[i as int]);
            }
            return false;
        }
        i = i + 1;
    }
    assert(p@.take(rl as int) =~= root@);
    if rl == pl {
        true
    } else if p.get_char(rl) == '/' {
        true
    } else if rl > 0 && root.get_char(rl - 1) == '/' {
        true
    } else {
        false
    }
}

/// Present `p` relative to `root`, per `rel_path_spec`.
pub fn rel_path(p: &str, root: &str) -> (r: String)
    ensures
        r@ == rel_path_spec(p@, root@),
{
    if !check_path_prefix(root, p) {
        return String::from_str(p);
    }
    let rl = root.unicode_len();
    let pl = p.unicode_len();
    let mut k = rl;
    while k < pl && p.get_char(k) == '/'
        invariant
            rl <= k <= pl,
            rl == root@.len(),
            pl == p@.len(),
            forall|j: int| rl <= j < k ==> p@[j] == '/',
        decreases pl - k,
    {
        k = k + 1;
    }
    proof {
        lemma_leading_slashes_count(p@.skip(rl as int), k - rl);
        assert(p@.skip(rl as int).skip(k - rl) =~= p@.subrange(k as int, pl as int));
    }
    String::from_str(p.substring_char(k, pl))
}

/// A sequence whose first `n` characters are slashes, with either nothing or
/// a non-slash after them, has exactly `n` leading slashes.
proof fn lemma_leading_slashes_count(s: Seq<char>, n: int)
    requires
        0 <= n <= s.len(),
        forall|j: int| 0 <= j < n ==> s[j] == '/',
        n < s.len() ==> s[n] != '/',
    ensures
        leading_slashes(s) == n,
    decreases n,
{
    if n == 0 {
    } else {
        lemma_leading_slashes_count(s.skip(1), n - 1);
    }
}

} // verus!
