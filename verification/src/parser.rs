//! The command-line token parser: turns a raw argument list into flags, an
//! optional main command, positional arguments and key/value options, and
//! the order-insensitive equality on the result.

use vstd::prelude::*;
use vstd::string::*;

verus! {

/// The views of a vector of strings.
pub open spec fn views_of_strings(s: Seq<String>) -> Seq<Seq<char>> {
    s.map_values(|x: String| x@)
}

/// The views of a vector of string pairs.
pub open spec fn views_of_pairs(s: Seq<(String, String)>) -> Seq<(Seq<char>, Seq<char>)> {
    s.map_values(|p: (String, String)| (p.0@, p.1@))
}

/// The view of an optional string.
pub open spec fn option_view(o: Option<String>) -> Option<Seq<char>> {
    match o {
        Some(s) => Some(s@),
        None => None,
    }
}

/// How many occurrences of `x` the sequence holds.
pub open spec fn count_str(s: Seq<Seq<char>>, x: Seq<char>) -> nat
    decreases s.len(),
{
    if s.len() == 0 {
        0
    } else {
        (if s.first() == x {
            1nat
        } else {
            0nat
        }) + count_str(s.drop_first(), x)
    }
}

/// First-match lookup in an association list.
pub open spec fn assoc_get<V>(s: Seq<(Seq<char>, V)>, k: Seq<char>) -> Option<V>
    decreases s.len(),
{
    if s.len() == 0 {
        None
    } else if s.first().0 == k {
        Some(s.first().1)
    } else {
        assoc_get(s.drop_first(), k)
    }
}

/// Insertion with replacement: the entry for `k` is replaced in place, or
/// appended when `k` is new — one entry per key, as a map insert.
pub open spec fn assoc_set<V>(s: Seq<(Seq<char>, V)>, k: Seq<char>, v: V) -> Seq<(Seq<char>, V)>
    decreases s.len(),
{
    if s.len() == 0 {
        seq![(k, v)]
    } else if s.first().0 == k {
        seq![(k, v)] + s.drop_first()
    } else {
        seq![s.first()] + assoc_set(s.drop_first(), k, v)
    }
}

/// How many leading dash characters a flag token carries (1 for `-x`, 2
/// for `--xy`), or -1 when the token is no flag (`-`, `--`, or no dash).
pub open spec fn spec_skip_chr(s: Seq<char>) -> int {
    if s.len() < 2 || s[0] != '-' {
        -1
    } else if s[1] == '-' {
        if s.len() < 3 {
            -1
        } else {
            2
        }
    } else {
        1
    }
}

/// The index of the first `=` in a token, or -1 when there is none.
pub open spec fn first_eq_index(s: Seq<char>) -> int
    decreases s.len(),
{
    if s.len() == 0 {
        -1
    } else if s.first() == '=' {
        0
    } else {
        let r = first_eq_index(s.drop_first());
        if r == -1 {
            -1
        } else {
            1 + r
        }
    }
}

/// The parse result, over mathematical values.
pub struct ParsedView {
    pub flags: Seq<Seq<char>>,
    pub positional: Seq<Seq<char>>,
    pub main: Option<Seq<char>>,
    pub optional: Seq<(Seq<char>, Seq<char>)>,
}

pub open spec fn empty_parsed() -> ParsedView {
    ParsedView {
        flags: Seq::empty(),
        positional: Seq::empty(),
        main: None,
        optional: Seq::empty(),
    }
}

/// What parsing a token list yields, given what was accumulated so far.
/// A flag token consumes its successor as a value unless that successor is
/// itself a flag; a trailing flag with no successor is dropped; a
/// `key=value` token (with a non-empty key and not ending in `=`) becomes
/// an option; the first remaining token is the main command; everything
/// else is positional.
pub open spec fn spec_parse(tokens: Seq<Seq<char>>, acc: ParsedView) -> ParsedView
    decreases tokens.len(),
{
    if tokens.len() == 0 {
        acc
    } else {
        let t = tokens.first();
        if t.len() > 0 && t[0] == '-' {
            let sk = spec_skip_chr(t);
            if sk == -1 {
                spec_parse(tokens.skip(1), acc)
            } else if tokens.len() == 1 {
                acc
            } else {
                let nxt = tokens[1];
                if spec_skip_chr(nxt) > 0 {
                    spec_parse(
                        tokens.skip(1),
                        ParsedView { flags: acc.flags.push(t.skip(sk)), ..acc },
                    )
                } else {
                    spec_parse(
                        tokens.skip(2),
                        ParsedView { optional: assoc_set(acc.optional, t.skip(sk), nxt), ..acc },
                    )
                }
            }
        } else if first_eq_index(t) >= 1 && t[t.len() - 1] != '=' {
            let d = first_eq_index(t);
            spec_parse(
                tokens.skip(1),
                ParsedView { optional: assoc_set(acc.optional, t.take(d), t.skip(d + 1)), ..acc },
            )
        } else if acc.main is None {
            spec_parse(tokens.skip(1), ParsedView { main: Some(t), ..acc })
        } else {
            spec_parse(tokens.skip(1), ParsedView { positional: acc.positional.push(t), ..acc })
        }
    }
}

/// How many leading dash characters to strip from a flag token, or -1 when
/// the token is no flag.
pub fn get_skip_chr_of(text: &str) -> (r: i8)
    ensures
        r == spec_skip_chr(text@),
{
    let n = text.unicode_len();
    if n < 2 {
        return -1;
    }
    if text.get_char(0) != '-' {
        return -1;
    }
    if text.get_char(1) == '-' {
        if n < 3 {
            return -1;
        }
        return 2;
    }
    1
}

/// Tokens that begin with one or two dashes carry flag content after them.
pub trait SkipChr {
    fn get_skip_chr(&self) -> i8;
}

impl SkipChr for str {
    fn get_skip_chr(&self) -> i8 {
        get_skip_chr_of(self)
    }
}

/// The index of the first `=` in the token, when it has one.
fn find_first_eq(text: &str) -> (r: Option<usize>)
    ensures
        match r {
            Some(d) => d == first_eq_index(text@) && d < text@.len(),
            None => first_eq_index(text@) == -1,
        },
{
    let n = text.unicode_len();
    let mut i: usize = 0;
    while i < n
        invariant_except_break
            i <= n,
            n == text@.len(),
            forall|j: int| 0 <= j < i ==> #[trigger] text@[j] != '=',
        ensures
            i <= n,
            n == text@.len(),
            forall|j: int| 0 <= j < i ==> #[trigger] text@[j] != '=',
            i < n ==> text@[i as int] == '=',
        decreases n - i,
    {
        if text.get_char(i) == '=' {
            break ;
        }
        i = i + 1;
    }
    proof {
        lemma_first_eq_from_scan(text@, i as int);
    }
    if i < n {
        Some(i)
    } else {
        None
    }
}

proof fn lemma_first_eq_from_scan(s: Seq<char>, i: int)
    requires
        0 <= i <= s.len(),
        forall|j: int| 0 <= j < i ==> #[trigger] s[j] != '=',
        i < s.len() ==> s[i] == '=',
    ensures
        first_eq_index(s) == if i < s.len() {
            i
        } else {
            -1
        },
    decreases s.len(),
{
    if s.len() == 0 {
    } else if i == 0 {
    } else {
        assert(s.first() != '=');
        lemma_first_eq_from_scan(s.drop_first(), i - 1);
    }
}

/// The parsed command line: free-standing flags, the main command, the
/// positional arguments, and the key/value options (one entry per key).
#[derive(Debug, Eq)]
pub struct Arguments {
    pub flags: Vec<String>,
    pub positional: Vec<String>,
    pub main_command: Option<String>,
    pub optional: Vec<(String, String)>,
}

/// Equality of two flag lists as multisets: equal lengths, and every flag
/// occurs equally often in both.
pub open spec fn same_multiset(a: Seq<Seq<char>>, b: Seq<Seq<char>>) -> bool {
    &&& a.len() == b.len()
    &&& forall|i: int| 0 <= i < a.len() ==> count_str(a, #[trigger] a[i]) == count_str(b, a[i])
    &&& forall|i: int| 0 <= i < b.len() ==> count_str(a, #[trigger] b[i]) == count_str(b, b[i])
}

/// Equality of two option lists as maps: looking up any key of either list
/// gives the same answer in both.
pub open spec fn same_assoc(a: Seq<(Seq<char>, Seq<char>)>, b: Seq<(Seq<char>, Seq<char>)>) -> bool {
    &&& forall|i: int|
        0 <= i < a.len() ==> assoc_get(b, (#[trigger] a[i]).0) == assoc_get(a, a[i].0)
    &&& forall|i: int|
        0 <= i < b.len() ==> assoc_get(a, (#[trigger] b[i]).0) == assoc_get(b, b[i].0)
}

/// When two parses mean the same command: equal flags up to order, equal
/// positional arguments in order, the same main command, and options that
/// agree as maps.
pub open spec fn arguments_equiv(a: &Arguments, b: &Arguments) -> bool {
    &&& same_multiset(views_of_strings(a.flags@), views_of_strings(b.flags@))
    &&& views_of_strings(a.positional@) == views_of_strings(b.positional@)
    &&& option_view(a.main_command) == option_view(b.main_command)
    &&& same_assoc(views_of_pairs(a.optional@), views_of_pairs(b.optional@))
}

proof fn lemma_count_str_push(s: Seq<Seq<char>>, y: Seq<char>, x: Seq<char>)
    ensures
        count_str(s.push(y), x) == count_str(s, x) + (if y == x {
            1int
        } else {
            0int
        }),
    decreases s.len(),
{
    if s.len() == 0 {
        assert(s.push(y).drop_first() =~= Seq::<Seq<char>>::empty());
        assert(s.push(y).first() == y);
        assert(count_str(Seq::<Seq<char>>::empty(), x) == 0);
        assert(s =~= Seq::<Seq<char>>::empty());
    } else {
        assert(s.push(y).drop_first() =~= s.drop_first().push(y));
        assert(s.push(y).first() == s.first());
        lemma_count_str_push(s.drop_first(), y, x);
    }
}

fn count_in(v: &Vec<String>, x: &String) -> (r: usize)
    ensures
        r == count_str(views_of_strings(v@), x@),
{
    let ghost all = views_of_strings(v@);
    let mut r: usize = 0;
    let mut i: usize = 0;
    while i < v.len()
        invariant
            all == views_of_strings(v@),
            i <= v@.len(),
            r <= i,
            r == count_str(all.take(i as int), x@),
        decreases v@.len() - i,
    {
        proof {
            lemma_count_str_push(all.take(i as int), all[i as int], x@);
            assert(all.take(i as int + 1) =~= all.take(i as int).push(all[i as int]));
        }
        if v[i] == *x {
            r = r + 1;
        }
        i = i + 1;
    }
    proof {
        assert(all.take(v@.len() as int) =~= all);
    }
    r
}

fn same_flag_multiset(a: &Vec<String>, b: &Vec<String>) -> (r: bool)
    ensures
        r == same_multiset(views_of_strings(a@), views_of_strings(b@)),
{
    let ghost av = views_of_strings(a@);
    let ghost bv = views_of_strings(b@);
    if a.len() != b.len() {
        return false;
    }
    let mut i: usize = 0;
    while i < a.len()
        invariant
            av == views_of_strings(a@),
            bv == views_of_strings(b@),
            av.len() == bv.len(),
            a@.len() == av.len(),
            b@.len() == bv.len(),
            i <= av.len(),
            forall|j: int| 0 <= j < i ==> count_str(av, #[trigger] av[j]) == count_str(bv, av[j]),
        decreases av.len() - i,
    {
        let ca = count_in(a, &a[i]);
        let cb = count_in(b, &a[i]);
        if ca != cb {
            proof {
                assert(count_str(av, av[i as int]) != count_str(bv, av[i as int]));
            }
            return false;
        }
        i = i + 1;
    }
    let mut t: usize = 0;
    while t < b.len()
        invariant
            av == views_of_strings(a@),
            bv == views_of_strings(b@),
            av.len() == bv.len(),
            a@.len() == av.len(),
            b@.len() == bv.len(),
            t <= bv.len(),
            forall|j: int| 0 <= j < av.len() ==> count_str(av, #[trigger] av[j]) == count_str(
                bv,
                av[j],
            ),
            forall|j: int| 0 <= j < t ==> count_str(av, #[trigger] bv[j]) == count_str(bv, bv[j]),
        decreases bv.len() - t,
    {
        let ca = count_in(a, &b[t]);
        let cb = count_in(b, &b[t]);
        if ca != cb {
            proof {
                assert(count_str(av, bv[t as int]) != count_str(bv, bv[t as int]));
            }
            return false;
        }
        t = t + 1;
    }
    true
}

fn same_string_vecs(a: &Vec<String>, b: &Vec<String>) -> (r: bool)
    ensures
        r == (views_of_strings(a@) == views_of_strings(b@)),
{
    let ghost av = views_of_strings(a@);
    let ghost bv = views_of_strings(b@);
    if a.len() != b.len() {
        return false;
    }
    let mut i: usize = 0;
    while i < a.len()
        invariant
            av == views_of_strings(a@),
            bv == views_of_strings(b@),
            av.len() == bv.len(),
            a@.len() == av.len(),
            b@.len() == bv.len(),
            i <= av.len(),
            forall|j: int| 0 <= j < i ==> av[j] == bv[j],
        decreases av.len() - i,
    {
        if !(a[i] == b[i]) {
            proof {
                assert(av[i as int] != bv[i as int]);
            }
            return false;
        }
        i = i + 1;
    }
    proof {
        assert(av =~= bv);
    }
    true
}

fn same_option(a: &Option<String>, b: &Option<String>) -> (r: bool)
    ensures
        r == (option_view(*a) == option_view(*b)),
{
    match a {
        Some(x) => match b {
            Some(y) => *x == *y,
            None => false,
        },
        None => b.is_none(),
    }
}

pub(crate) proof fn lemma_assoc_get_found<V>(s: Seq<(Seq<char>, V)>, k: Seq<char>, i: int)
    requires
        0 <= i < s.len(),
        s[i].0 == k,
        forall|j: int| 0 <= j < i ==> (#[trigger] s[j]).0 != k,
    ensures
        assoc_get(s, k) == Some(s[i].1),
    decreases s.len(),
{
    if i == 0 {
    } else {
        assert(s.first().0 != k);
        lemma_assoc_get_found(s.drop_first(), k, i - 1);
    }
}

pub(crate) proof fn lemma_assoc_get_none<V>(s: Seq<(Seq<char>, V)>, k: Seq<char>)
    requires
        forall|j: int| 0 <= j < s.len() ==> (#[trigger] s[j]).0 != k,
    ensures
        assoc_get(s, k) is None,
    decreases s.len(),
{
    if s.len() == 0 {
    } else {
        assert(s.first().0 != k);
        lemma_assoc_get_none(s.drop_first(), k);
    }
}

fn assoc_find(v: &Vec<(String, String)>, k: &String) -> (r: Option<usize>)
    ensures
        match r {
            Some(i) => {
                &&& i < v@.len()
                &&& views_of_pairs(v@)[i as int].0 == k@
                &&& forall|j: int| 0 <= j < i ==> (#[trigger] views_of_pairs(v@)[j]).0 != k@
            },
            None => forall|j: int|
                0 <= j < v@.len() ==> (#[trigger] views_of_pairs(v@)[j]).0 != k@,
        },
{
    let mut i: usize = 0;
    while i < v.len()
        invariant_except_break
            i <= v@.len(),
            forall|j: int| 0 <= j < i ==> (#[trigger] views_of_pairs(v@)[j]).0 != k@,
        ensures
            i <= v@.len(),
            forall|j: int| 0 <= j < i ==> (#[trigger] views_of_pairs(v@)[j]).0 != k@,
            i < v@.len() ==> views_of_pairs(v@)[i as int].0 == k@,
        decreases v@.len() - i,
    {
        if v[i].0 == *k {
            break ;
        }
        i = i + 1;
    }
    if i < v.len() {
        Some(i)
    } else {
        None
    }
}

fn same_assoc_lists(a: &Vec<(String, String)>, b: &Vec<(String, String)>) -> (r: bool)
    ensures
        r == same_assoc(views_of_pairs(a@), views_of_pairs(b@)),
{
    let ghost av = views_of_pairs(a@);
    let ghost bv = views_of_pairs(b@);
    let mut i: usize = 0;
    while i < a.len()
        invariant
            av == views_of_pairs(a@),
            bv == views_of_pairs(b@),
            a@.len() == av.len(),
            b@.len() == bv.len(),
            i <= av.len(),
            forall|j: int|
                0 <= j < i ==> assoc_get(bv, (#[trigger] av[j]).0) == assoc_get(av, av[j].0),
        decreases av.len() - i,
    {
        let fa = assoc_find(a, &a[i].0);
        let fb = assoc_find(b, &a[i].0);
        match (fa, fb) {
            (Some(ia), Some(ib)) => {
                proof {
                    lemma_assoc_get_found(av, a@[i as int].0@, ia as int);
                    lemma_assoc_get_found(bv, a@[i as int].0@, ib as int);
                }
                if !(a[ia].1 == b[ib].1) {
                    proof {
                        assert(assoc_get(bv, av[i as int].0) != assoc_get(av, av[i as int].0));
                    }
                    return false;
                }
            },
            (Some(ia), None) => {
                proof {
                    lemma_assoc_get_found(av, a@[i as int].0@, ia as int);
                    lemma_assoc_get_none(bv, a@[i as int].0@);
                    assert(assoc_get(bv, av[i as int].0) != assoc_get(av, av[i as int].0));
                }
                return false;
            },
            (None, _) => {
                proof {
                    assert(views_of_pairs(a@)[i as int].0 == a@[i as int].0@);
                    assert(false);
                }
                return false;
            },
        }
        i = i + 1;
    }
    let mut t: usize = 0;
    while t < b.len()
        invariant
            av == views_of_pairs(a@),
            bv == views_of_pairs(b@),
            a@.len() == av.len(),
            b@.len() == bv.len(),
            t <= bv.len(),
            forall|j: int|
                0 <= j < av.len() ==> assoc_get(bv, (#[trigger] av[j]).0) == assoc_get(
                    av,
                    av[j].0,
                ),
            forall|j: int|
                0 <= j < t ==> assoc_get(av, (#[trigger] bv[j]).0) == assoc_get(bv, bv[j].0),
        decreases bv.len() - t,
    {
        let fa = assoc_find(a, &b[t].0);
        let fb = assoc_find(b, &b[t].0);
        match (fb, fa) {
            (Some(ib), Some(ia)) => {
                proof {
                    lemma_assoc_get_found(av, b@[t as int].0@, ia as int);
                    lemma_assoc_get_found(bv, b@[t as int].0@, ib as int);
                }
                if !(a[ia].1 == b[ib].1) {
                    proof {
                        assert(assoc_get(av, bv[t as int].0) != assoc_get(bv, bv[t as int].0));
                    }
                    return false;
                }
            },
            (Some(ib), None) => {
                proof {
                    lemma_assoc_get_none(av, b@[t as int].0@);
                    lemma_assoc_get_found(bv, b@[t as int].0@, ib as int);
                    assert(assoc_get(av, bv[t as int].0) != assoc_get(bv, bv[t as int].0));
                }
                return false;
            },
            (None, _) => {
                proof {
                    assert(views_of_pairs(b@)[t as int].0 == b@[t as int].0@);
                    assert(false);
                }
                return false;
            },
        }
        t = t + 1;
    }
    true
}

impl Arguments {
    /// Looks up the value recorded for an option key.
    pub fn get_optional(&self, key: &String) -> (r: Option<&String>)
        ensures
            match r {
                Some(v) => assoc_get(views_of_pairs(self.optional@), key@) == Some(v@),
                None => assoc_get(views_of_pairs(self.optional@), key@) is None,
            },
    {
        match assoc_find(&self.optional, key) {
            Some(i) => {
                proof {
                    lemma_assoc_get_found(views_of_pairs(self.optional@), key@, i as int);
                }
                Some(&self.optional[i].1)
            },
            None => {
                proof {
                    lemma_assoc_get_none(views_of_pairs(self.optional@), key@);
                }
                None
            },
        }
    }
}

impl PartialEq for Arguments {
    /// Two parses are equal when they mean the same command: flags compare
    /// as multisets and options as maps; only positional order matters.
    fn eq(&self, other: &Self) -> bool {
        same_flag_multiset(&self.flags, &other.flags) && same_string_vecs(
            &self.positional,
            &other.positional,
        ) && same_option(&self.main_command, &other.main_command) && same_assoc_lists(
            &self.optional,
            &other.optional,
        )
    }
}

impl vstd::std_specs::cmp::PartialEqSpecImpl for Arguments {
    open spec fn obeys_eq_spec() -> bool {
        true
    }

    open spec fn eq_spec(&self, other: &Arguments) -> bool {
        arguments_equiv(self, other)
    }
}

pub(crate) proof fn lemma_assoc_set_found<V>(s: Seq<(Seq<char>, V)>, k: Seq<char>, v: V, i: int)
    requires
        0 <= i < s.len(),
        s[i].0 == k,
        forall|j: int| 0 <= j < i ==> (#[trigger] s[j]).0 != k,
    ensures
        assoc_set(s, k, v) == s.update(i, (k, v)),
    decreases s.len(),
{
    if i == 0 {
        assert(seq![(k, v)] + s.drop_first() =~= s.update(0, (k, v)));
    } else {
        assert(s.first().0 != k);
        lemma_assoc_set_found(s.drop_first(), k, v, i - 1);
        assert(seq![s.first()] + s.drop_first().update(i - 1, (k, v)) =~= s.update(i, (k, v)));
    }
}

pub(crate) proof fn lemma_assoc_set_new<V>(s: Seq<(Seq<char>, V)>, k: Seq<char>, v: V)
    requires
        forall|j: int| 0 <= j < s.len() ==> (#[trigger] s[j]).0 != k,
    ensures
        assoc_set(s, k, v) == s.push((k, v)),
    decreases s.len(),
{
    if s.len() == 0 {
        assert(seq![(k, v)] =~= s.push((k, v)));
    } else {
        assert(s.first().0 != k);
        lemma_assoc_set_new(s.drop_first(), k, v);
        assert(seq![s.first()] + s.drop_first().push((k, v)) =~= s.push((k, v)));
    }
}

/// Inserts a key/value pair as a map insert: an existing entry for the key
/// is replaced in place, a new key is appended.
fn assoc_insert(v: &mut Vec<(String, String)>, k: String, val: String)
    ensures
        views_of_pairs(final(v)@) == assoc_set(views_of_pairs(old(v)@), k@, val@),
{
    let mut i: usize = 0;
    while i < v.len()
        invariant_except_break
            i <= v@.len(),
            v@ == old(v)@,
            forall|j: int| 0 <= j < i ==> (#[trigger] v@[j]).0@ != k@,
        ensures
            v@ == old(v)@,
            i <= v@.len(),
            forall|j: int| 0 <= j < i ==> (#[trigger] v@[j]).0@ != k@,
            i < v@.len() ==> v@[i as int].0@ == k@,
        decreases v@.len() - i,
    {
        if v[i].0 == k {
            break ;
        }
        i = i + 1;
    }
    let ghost olds = views_of_pairs(old(v)@);
    if i < v.len() {
        proof {
            assert(forall|j: int| 0 <= j < i ==> (#[trigger] olds[j]).0 != k@);
            assert(olds[i as int].0 == k@);
            lemma_assoc_set_found(olds, k@, val@, i as int);
        }
        v.set(i, (k, val));
        proof {
            assert(views_of_pairs(v@) =~= olds.update(i as int, (k@, val@)));
        }
    } else {
        proof {
            assert(forall|j: int| 0 <= j < olds.len() ==> (#[trigger] olds[j]).0 != k@);
            lemma_assoc_set_new(olds, k@, val@);
        }
        v.push((k, val));
        proof {
            assert(views_of_pairs(v@) =~= olds.push((k@, val@)));
        }
    }
}

pub struct CommandParser;

impl CommandParser {
    /// Parses a raw argument list (the first element is the program name
    /// and is skipped) into flags, main command, positional arguments and
    /// key/value options, exactly as `spec_parse` describes.
    pub fn from_strings(args: Vec<String>) -> (r: Arguments)
        ensures
            ({
                let toks = if args@.len() == 0 {
                    Seq::<Seq<char>>::empty()
                } else {
                    views_of_strings(args@).skip(1)
                };
                let p = spec_parse(toks, empty_parsed());
                &&& views_of_strings(r.flags@) == p.flags
                &&& views_of_strings(r.positional@) == p.positional
                &&& option_view(r.main_command) == p.main
                &&& views_of_pairs(r.optional@) == p.optional
            }),
    {
        let ghost toks = if args@.len() == 0 {
            Seq::<Seq<char>>::empty()
        } else {
            views_of_strings(args@).skip(1)
        };
        let mut flags: Vec<String> = Vec::new();
        let mut positional: Vec<String> = Vec::new();
        let mut optional: Vec<(String, String)> = Vec::new();
        let mut main_command: Option<String> = None;
        let mut i: usize = 1;
        proof {
            assert(toks.skip(0) =~= toks);
            assert(views_of_strings(flags@) =~= Seq::<Seq<char>>::empty());
            assert(views_of_strings(positional@) =~= Seq::<Seq<char>>::empty());
            assert(views_of_pairs(optional@) =~= Seq::<(Seq<char>, Seq<char>)>::empty());
        }
        while i < args.len()
            invariant_except_break
                1 <= i,
                args@.len() == 0 ==> i == 1,
                args@.len() > 0 ==> i <= args@.len() + 1,
                toks == (if args@.len() == 0 {
                    Seq::<Seq<char>>::empty()
                } else {
                    views_of_strings(args@).skip(1)
                }),
                spec_parse(toks, empty_parsed()) == spec_parse(
                    (if i - 1 <= toks.len() {
                        toks.skip(i as int - 1)
                    } else {
                        Seq::<Seq<char>>::empty()
                    }),
                    (ParsedView {
                        flags: views_of_strings(flags@),
                        positional: views_of_strings(positional@),
                        main: option_view(main_command),
                        optional: views_of_pairs(optional@),
                    }),
                ),
            ensures
                spec_parse(toks, empty_parsed()) == (ParsedView {
                    flags: views_of_strings(flags@),
                    positional: views_of_strings(positional@),
                    main: option_view(main_command),
                    optional: views_of_pairs(optional@),
                }),
            decreases args@.len() - i,
        {
            let ghost rem = toks.skip(i as int - 1);
            let ghost acc = ParsedView {
                flags: views_of_strings(flags@),
                positional: views_of_strings(positional@),
                main: option_view(main_command),
                optional: views_of_pairs(optional@),
            };
            proof {
                assert(i - 1 < toks.len());
                assert(rem.len() > 0);
                assert(rem.first() == args@[i as int]@);
            }
            let tok = &args[i];
            let tok_len = tok.as_str().unicode_len();
            let sk = get_skip_chr_of(tok.as_str());
            let is_dash = tok_len > 0 && tok.as_str().get_char(0) == '-';
            if is_dash {
                if sk < 0 {
                    proof {
                        assert(rem.skip(1) =~= toks.skip(i as int));
                        assert(spec_parse(rem, acc) == spec_parse(rem.skip(1), acc));
                    }
                    i = i + 1;
                } else if i + 1 >= args.len() {
                    proof {
                        assert(rem.len() == 1);
                        assert(spec_parse(rem, acc) == acc);
                    }
                    break ;
                } else {
                    proof {
                        assert(rem[1] == args@[i as int + 1]@);
                    }
                    let nsk = get_skip_chr_of(args[i + 1].as_str());
                    let content = tok.as_str().substring_char(sk as usize, tok_len).to_owned();
                    proof {
                        assert(content@ =~= rem.first().skip(sk as int));
                    }
                    if nsk > 0 {
                        proof {
                            assert(rem.skip(1) =~= toks.skip(i as int));
                            assert(views_of_strings(flags@.push(content)) =~= views_of_strings(
                                flags@,
                            ).push(content@));
                            assert(spec_parse(rem, acc) == spec_parse(
                                rem.skip(1),
                                (ParsedView { flags: acc.flags.push(rem.first().skip(sk as int)), ..acc }),
                            ));
                        }
                        flags.push(content);
                        i = i + 1;
                    } else {
                        let val = args[i + 1].clone();
                        proof {
                            assert(rem.skip(2) =~= (if i + 1 <= toks.len() {
                                toks.skip(i as int + 1)
                            } else {
                                Seq::<Seq<char>>::empty()
                            }));
                            assert(spec_parse(rem, acc) == spec_parse(
                                rem.skip(2),
                                (ParsedView {
                                    optional: assoc_set(
                                        acc.optional,
                                        rem.first().skip(sk as int),
                                        rem[1],
                                    ),
                                    ..acc
                                }),
                            ));
                        }
                        assoc_insert(&mut optional, content, val);
                        i = i + 2;
                    }
                }
            } else {
                let deq = find_first_eq(tok.as_str());
                let last_is_eq = tok_len > 0 && tok.as_str().get_char(tok_len - 1) == '=';
                let has_split = match deq {
                    Some(d) => d >= 1 && !last_is_eq,
                    None => false,
                };
                if has_split {
                    let d = match deq {
                        Some(d) => d,
                        None => 0,
                    };
                    let key = tok.as_str().substring_char(0, d).to_owned();
                    let val = tok.as_str().substring_char(d + 1, tok_len).to_owned();
                    proof {
                        assert(key@ =~= rem.first().take(d as int));
                        assert(val@ =~= rem.first().skip(d as int + 1));
                        assert(rem.skip(1) =~= toks.skip(i as int));
                        assert(spec_parse(rem, acc) == spec_parse(
                            rem.skip(1),
                            (ParsedView {
                                optional: assoc_set(
                                    acc.optional,
                                    rem.first().take(d as int),
                                    rem.first().skip(d as int + 1),
                                ),
                                ..acc
                            }),
                        ));
                    }
                    assoc_insert(&mut optional, key, val);
                    i = i + 1;
                } else if main_command.is_none() {
                    proof {
                        assert(rem.skip(1) =~= toks.skip(i as int));
                        assert(spec_parse(rem, acc) == spec_parse(
                            rem.skip(1),
                            (ParsedView { main: Some(rem.first()), ..acc }),
                        ));
                    }
                    main_command = Some(tok.clone());
                    i = i + 1;
                } else {
                    proof {
                        assert(rem.skip(1) =~= toks.skip(i as int));
                        assert(views_of_strings(positional@.push(*tok)) =~= views_of_strings(
                            positional@,
                        ).push(tok@));
                        assert(spec_parse(rem, acc) == spec_parse(
                            rem.skip(1),
                            (ParsedView { positional: acc.positional.push(rem.first()), ..acc }),
                        ));
                    }
                    positional.push(tok.clone());
                    i = i + 1;
                }
            }
        }
        Arguments { flags, positional, main_command, optional }
    }
}

} // verus!
