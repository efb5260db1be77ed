//! Pure string transforms on paths: stripping leading separators from
//! remote key prefixes, appending a trailing slash, and the naming rule of
//! the standalone file codec (`name.ext` seals to `name.ext.enc` and back).

use vstd::prelude::*;
use vstd::string::*;

verus! {

/// A path separator: `/` or `\`.
pub open spec fn is_sep(c: char) -> bool {
    c == '/' || c == '\\'
}

/// How many separators a string starts with.
pub open spec fn leading_separators(s: Seq<char>) -> nat
    decreases s.len(),
{
    if s.len() == 0 {
        0
    } else if is_sep(s.first()) {
        (1 + leading_separators(s.drop_first())) as nat
    } else {
        0
    }
}

/// The characters after the last separator; the whole string when it has
/// no separator, and empty when it ends in one.
pub open spec fn after_last_sep(s: Seq<char>) -> Seq<char>
    decreases s.len(),
{
    if s.len() == 0 {
        Seq::empty()
    } else if is_sep(s.last()) {
        Seq::empty()
    } else {
        after_last_sep(s.drop_last()).push(s.last())
    }
}

/// The index of the last `.` in a name, or -1 when there is none.
pub open spec fn last_dot_index(name: Seq<char>) -> int
    decreases name.len(),
{
    if name.len() == 0 {
        -1
    } else if name.last() == '.' {
        name.len() - 1
    } else {
        last_dot_index(name.drop_last())
    }
}

/// A file name without its final extension segment: the characters before
/// the last `.`, or the whole name when it has no `.` past its first
/// character (a lone leading dot marks a hidden file, not an extension).
pub open spec fn spec_file_stem(name: Seq<char>) -> Seq<char> {
    let d = last_dot_index(name);
    if d <= 0 {
        name
    } else {
        name.take(d)
    }
}

proof fn lemma_leading_separators_from_scan(s: Seq<char>, i: int)
    requires
        0 <= i <= s.len(),
        forall|j: int| 0 <= j < i ==> is_sep(#[trigger] s[j]),
        i < s.len() ==> !is_sep(s[i]),
    ensures
        leading_separators(s) == i,
    decreases i,
{
    if i == 0 {
    } else {
        assert(is_sep(s.first()));
        lemma_leading_separators_from_scan(s.drop_first(), i - 1);
    }
}

proof fn lemma_after_last_sep_from_scan(s: Seq<char>, start: int)
    requires
        0 <= start <= s.len(),
        forall|j: int| start <= j < s.len() ==> !is_sep(#[trigger] s[j]),
        start > 0 ==> is_sep(s[start - 1]),
    ensures
        after_last_sep(s) == s.skip(start),
    decreases s.len(),
{
    if s.len() == 0 {
        assert(s.skip(start) =~= Seq::<char>::empty());
    } else if start == s.len() {
        assert(s.skip(start) =~= Seq::<char>::empty());
    } else {
        assert(!is_sep(s.last()));
        lemma_after_last_sep_from_scan(s.drop_last(), start);
        assert(s.drop_last().skip(start).push(s.last()) =~= s.skip(start));
    }
}

proof fn lemma_last_dot_from_scan(s: Seq<char>, d: int)
    requires
        -1 <= d < s.len(),
        forall|j: int| d < j < s.len() ==> #[trigger] s[j] != '.',
        d >= 0 ==> s[d] == '.',
    ensures
        last_dot_index(s) == d,
    decreases s.len(),
{
    if s.len() == 0 {
    } else if d == s.len() - 1 {
    } else {
        assert(s.last() != '.');
        lemma_last_dot_from_scan(s.drop_last(), d);
    }
}

/// Strips every leading `/` or `\` from a path, so that a remote key
/// prefix never begins with a separator.
pub fn sanitize_prefix_path(path: &str) -> (r: &str)
    ensures
        r@ == path@.skip(leading_separators(path@) as int),
{
    let n = path.unicode_len();
    let mut i: usize = 0;
    while i < n
        invariant_except_break
            i <= n,
            n == path@.len(),
            forall|j: int| 0 <= j < i ==> is_sep(#[trigger] path@[j]),
        ensures
            i <= n,
            n == path@.len(),
            forall|j: int| 0 <= j < i ==> is_sep(#[trigger] path@[j]),
            i < n ==> !is_sep(path@[i as int]),
        decreases n - i,
    {
        let c = path.get_char(i);
        if c == '/' || c == '\\' {
            i = i + 1;
        } else {
            break ;
        }
    }
    proof {
        lemma_leading_separators_from_scan(path@, i as int);
    }
    path.substring_char(i, n)
}

/// Appends a single `/` to a non-empty path that does not already end in a
/// separator; leaves every other path unchanged.
pub fn append_slash(path: &mut String)
    ensures
        final(path)@ == if old(path)@.len() > 0 && !is_sep(old(path)@.last()) {
            old(path)@.push('/')
        } else {
            old(path)@
        },
{
    let n = path.as_str().unicode_len();
    if n == 0 {
        return ;
    }
    let last = path.as_str().get_char(n - 1);
    if last == '/' || last == '\\' {
        return ;
    }
    path.append("/");
    proof {
        reveal_strlit("/");
        assert(old(path)@ + "/"@ =~= old(path)@.push('/'));
    }
}

/// The default output name of the standalone file codec: sealing appends
/// `.enc` to the file name of the path, and opening strips the final
/// extension segment from it.
pub fn get_crypt_file_name(path: &str, is_encrypt: bool) -> (r: Result<String, &'static str>)
    ensures
        r matches Ok(name) && name@ == if is_encrypt {
            after_last_sep(path@) + ".enc"@
        } else {
            spec_file_stem(after_last_sep(path@))
        },
{
    let n = path.unicode_len();
    let mut start: usize = 0;
    let mut i: usize = 0;
    while i < n
        invariant
            i <= n,
            start <= i,
            n == path@.len(),
            forall|j: int| start <= j < i ==> !is_sep(#[trigger] path@[j]),
            start > 0 ==> is_sep(path@[start as int - 1]),
        decreases n - i,
    {
        let c = path.get_char(i);
        if c == '/' || c == '\\' {
            start = i + 1;
        }
        i = i + 1;
    }
    proof {
        lemma_after_last_sep_from_scan(path@, start as int);
    }
    let name = path.substring_char(start, n);
    let m = name.unicode_len();
    if is_encrypt {
        let mut out = name.to_owned();
        out.append(".enc");
        Ok(out)
    } else {
        let mut has_dot = false;
        let mut dot_idx: usize = 0;
        let mut t: usize = 0;
        while t < m
            invariant
                t <= m,
                m == name@.len(),
                has_dot ==> dot_idx < t && name@[dot_idx as int] == '.',
                forall|j: int|
                    (if has_dot {
                        dot_idx as int
                    } else {
                        -1
                    }) < j < t ==> #[trigger] name@[j] != '.',
            decreases m - t,
        {
            let c = name.get_char(t);
            if c == '.' {
                has_dot = true;
                dot_idx = t;
            }
            t = t + 1;
        }
        proof {
            lemma_last_dot_from_scan(
                name@,
                if has_dot {
                    dot_idx as int
                } else {
                    -1
                },
            );
        }
        if has_dot && dot_idx > 0 {
            let stem = name.substring_char(0, dot_idx);
            proof {
                assert(name@.subrange(0, dot_idx as int) =~= name@.take(dot_idx as int));
            }
            Ok(stem.to_owned())
        } else {
            Ok(name.to_owned())
        }
    }
}

} // verus!
