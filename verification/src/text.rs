//! Text: splitting, trimming, searching, joining and printing numbers.
//!
//! Executable functions work on `&str` and on vectors of characters; their
//! contracts speak of the sequence of characters that a text holds.

use vstd::prelude::*;
use vstd::string::*;

verus! {

// ---------------------------------------------------------------------------
// Models
// ---------------------------------------------------------------------------

/// The pieces of `s` between the occurrences of `sep`. There is always one
/// more piece than there are separators, and a piece may be empty.
pub open spec fn split(s: Seq<char>, sep: char) -> Seq<Seq<char>>
    decreases s.len(),
{
    if s.len() == 0 {
        seq![Seq::<char>::empty()]
    } else {
        let init = split(s.drop_last(), sep);
        if s.last() == sep {
            init.push(Seq::<char>::empty())
        } else {
            init.drop_last().push(init.last().push(s.last()))
        }
    }
}

/// A piece of a path that names something: it holds a character and is not a
/// lone dot, which stands for the place itself.
pub open spec fn is_name(piece: Seq<char>) -> bool {
    piece.len() > 0 && piece != seq!['.']
}

/// The pieces that name something, in their order.
pub open spec fn named(pieces: Seq<Seq<char>>) -> Seq<Seq<char>>
    decreases pieces.len(),
{
    if pieces.len() == 0 {
        Seq::<Seq<char>>::empty()
    } else {
        let init = named(pieces.drop_last());
        if is_name(pieces.last()) {
            init.push(pieces.last())
        } else {
            init
        }
    }
}

/// The names along a path: what stands between its slashes, with nothing for
/// a leading, a trailing or a repeated slash and nothing for a lone dot.
pub open spec fn components(path: Seq<char>) -> Seq<Seq<char>> {
    named(split(path, '/'))
}

/// `s` without the run of `c` that it begins with.
pub open spec fn trim_start(s: Seq<char>, c: char) -> Seq<char>
    decreases s.len(),
{
    if s.len() > 0 && s[0] == c {
        trim_start(s.skip(1), c)
    } else {
        s
    }
}

/// `s` without the run of `c` that it ends with.
pub open spec fn trim_end(s: Seq<char>, c: char) -> Seq<char>
    decreases s.len(),
{
    if s.len() > 0 && s.last() == c {
        trim_end(s.drop_last(), c)
    } else {
        s
    }
}

/// What stands in `s` before the first `c`; all of `s` if there is none.
pub open spec fn until(s: Seq<char>, c: char) -> Seq<char>
    decreases s.len(),
{
    if s.len() == 0 || s[0] == c {
        Seq::<char>::empty()
    } else {
        seq![s[0]] + until(s.skip(1), c)
    }
}

/// `s` begins with `p`.
pub open spec fn starts_with(s: Seq<char>, p: Seq<char>) -> bool {
    p.len() <= s.len() && s.take(p.len() as int) == p
}

/// `s` ends with `p`.
pub open spec fn ends_with(s: Seq<char>, p: Seq<char>) -> bool {
    p.len() <= s.len() && s.skip(s.len() - p.len()) == p
}

/// `p` stands in `s` at position `i`.
pub open spec fn occurs_at(s: Seq<char>, p: Seq<char>, i: int) -> bool {
    0 <= i && i + p.len() <= s.len() && s.subrange(i, i + p.len()) == p
}

/// `i` is the first position at which `p` stands in `s`.
pub open spec fn first_at(s: Seq<char>, p: Seq<char>, i: int) -> bool {
    occurs_at(s, p, i) && forall|j: int| 0 <= j < i ==> !#[trigger] occurs_at(s, p, j)
}

/// `p` stands somewhere in `s`.
pub open spec fn contains_text(s: Seq<char>, p: Seq<char>) -> bool {
    exists|i: int| #[trigger] occurs_at(s, p, i)
}

/// What stands before the last `c` of `s`, where there is one.
pub open spec fn before_last(s: Seq<char>, c: char) -> Option<Seq<char>>
    decreases s.len(),
{
    if s.len() == 0 {
        None
    } else if s.last() == c {
        Some(s.drop_last())
    } else {
        before_last(s.drop_last(), c)
    }
}

/// What stands after the last `c` of `s`; all of `s` where there is none.
pub open spec fn after_last(s: Seq<char>, c: char) -> Seq<char>
    decreases s.len(),
{
    if s.len() == 0 || s.last() == c {
        Seq::<char>::empty()
    } else {
        after_last(s.drop_last(), c).push(s.last())
    }
}

/// The decimal digit with value `d`.
pub open spec fn digit(d: int) -> char {
    if d == 0 {
        '0'
    } else if d == 1 {
        '1'
    } else if d == 2 {
        '2'
    } else if d == 3 {
        '3'
    } else if d == 4 {
        '4'
    } else if d == 5 {
        '5'
    } else if d == 6 {
        '6'
    } else if d == 7 {
        '7'
    } else if d == 8 {
        '8'
    } else {
        '9'
    }
}

/// `n` in decimal, without leading zeros.
pub open spec fn decimal(n: nat) -> Seq<char>
    decreases n,
{
    if n < 10 {
        seq![digit(n as int)]
    } else {
        decimal(n / 10).push(digit((n % 10) as int))
    }
}

/// The texts that a vector of strings holds.
pub open spec fn texts(v: Seq<String>) -> Seq<Seq<char>> {
    v.map_values(|s: String| s@)
}

/// `a` stands before `b` in the order of their characters' code points, the
/// order in which strings compare.
pub open spec fn text_lt(a: Seq<char>, b: Seq<char>) -> bool
    decreases a.len(),
{
    if b.len() == 0 {
        false
    } else if a.len() == 0 {
        true
    } else if a[0] == b[0] {
        text_lt(a.skip(1), b.skip(1))
    } else {
        a[0] < b[0]
    }
}

// ---------------------------------------------------------------------------
// Characters and strings
// ---------------------------------------------------------------------------

/// The characters of `s`.
pub fn chars_of(s: &str) -> (r: Vec<char>)
    ensures
        r@ == s@,
{
    let mut out: Vec<char> = Vec::new();
    for c in it: s.chars()
        invariant
            out@ == it.seq().take(it.index()),
            it.seq() == s@,
    {
        out.push(c);
        assert(it.seq().take(it.index() + 1) =~= it.seq().take(it.index()).push(c));
    }
    assert(s@.take(s@.len() as int) =~= s@);
    out
}

/// Whether two texts hold the same characters.
pub fn same_text(a: &str, b: &str) -> (r: bool)
    ensures
        r == (a@ == b@),
{
    same_chars(&chars_of(a), &chars_of(b))
}

/// Whether two vectors hold the same characters.
pub fn same_chars(a: &Vec<char>, b: &Vec<char>) -> (r: bool)
    ensures
        r == (a@ == b@),
{
    if a.len() != b.len() {
        return false;
    }
    let mut i: usize = 0;
    while i < a.len()
        invariant
            a.len() == b.len(),
            i <= a.len(),
            forall|j: int| 0 <= j < i ==> a@[j] == b@[j],
        decreases a.len() - i,
    {
        if a[i] != b[i] {
            return false;
        }
        i += 1;
    }
    assert(a@ =~= b@);
    true
}

/// Whether `p` stands in `s` at position `at`.
pub fn stands_at(s: &Vec<char>, p: &Vec<char>, at: usize) -> (r: bool)
    ensures
        r == occurs_at(s@, p@, at as int),
{
    if at > s.len() || s.len() - at < p.len() {
        return false;
    }
    let mut i: usize = 0;
    while i < p.len()
        invariant
            at + p.len() <= s.len(),
            i <= p.len(),
            forall|j: int| 0 <= j < i ==> s@[at + j] == p@[j],
        decreases p.len() - i,
    {
        if s[at + i] != p[i] {
            assert(s@.subrange(at as int, at + p@.len())[i as int] != p@[i as int]);
            return false;
        }
        i += 1;
    }
    assert(s@.subrange(at as int, at + p@.len()) =~= p@);
    true
}

/// The first position from `from` on at which `p` stands in `s` and ends at
/// `stop` or before.
pub fn find_between(s: &Vec<char>, p: &Vec<char>, from: usize, stop: usize) -> (r: Option<usize>)
    requires
        from <= stop <= s.len(),
    ensures
        match r {
            Some(i) => from <= i && i + p.len() <= stop && occurs_at(s@, p@, i as int) && forall|j: int|
                from <= j < i ==> !#[trigger] occurs_at(s@, p@, j),
            None => forall|j: int|
                from <= j && j + p.len() <= stop ==> !#[trigger] occurs_at(s@, p@, j),
        },
{
    let mut i: usize = from;
    while i <= stop && p.len() <= stop - i
        invariant
            from <= i <= stop + 1,
            stop <= s.len(),
            forall|j: int| from <= j < i ==> !#[trigger] occurs_at(s@, p@, j),
        decreases stop + 1 - i,
    {
        if stands_at(s, p, i) {
            return Some(i);
        }
        if i == stop {
            return None;
        }
        i += 1;
    }
    None
}

/// The pieces of `s` between the occurrences of `sep`.
pub fn split_text(s: &str, sep: char) -> (r: Vec<String>)
    ensures
        texts(r@) == split(s@, sep),
{
    let cs: Vec<char> = chars_of(s);
    let mut out: Vec<String> = Vec::new();
    let mut start: usize = 0;
    let mut i: usize = 0;
    proof {
        assert(s@.subrange(0, 0) =~= Seq::<char>::empty());
        assert(texts(out@).push(s@.subrange(0, 0)) =~= split(s@.take(0), sep));
    }
    while i < cs.len()
        invariant
            cs@ == s@,
            start <= i <= cs.len(),
            split(s@.take(i as int), sep) == texts(out@).push(s@.subrange(start as int, i as int)),
        decreases cs.len() - i,
    {
        let ghost before = out@;
        let ghost piece = s@.subrange(start as int, i as int);
        proof {
            assert(s@.take(i + 1).drop_last() =~= s@.take(i as int));
            assert(texts(before).push(piece).drop_last() =~= texts(before));
        }
        if cs[i] == sep {
            out.push(s.substring_char(start, i).to_owned());
            start = i + 1;
            proof {
                assert(texts(out@) =~= texts(before).push(piece));
                assert(s@.subrange(start as int, i + 1) =~= Seq::<char>::empty());
            }
        } else {
            proof {
                assert(s@.subrange(start as int, i + 1) =~= piece.push(s@[i as int]));
            }
        }
        i += 1;
    }
    let ghost before = out@;
    out.push(s.substring_char(start, cs.len()).to_owned());
    proof {
        assert(s@.take(s@.len() as int) =~= s@);
        assert(texts(out@) =~= texts(before).push(s@.subrange(start as int, s@.len() as int)));
    }
    out
}

/// The names along a path.
pub fn path_components(path: &str) -> (r: Vec<String>)
    ensures
        texts(r@) == components(path@),
{
    let pieces: Vec<String> = split_text(path, '/');
    let mut out: Vec<String> = Vec::new();
    let mut i: usize = 0;
    proof {
        assert(texts(pieces@).take(0) =~= Seq::<Seq<char>>::empty());
        assert(texts(out@) =~= named(texts(pieces@).take(0)));
    }
    while i < pieces.len()
        invariant
            i <= pieces.len(),
            texts(out@) == named(texts(pieces@).take(i as int)),
        decreases pieces.len() - i,
    {
        let ghost before = out@;
        let ghost all = texts(pieces@);
        proof {
            assert(all.take(i + 1).drop_last() =~= all.take(i as int));
            assert(all.take(i + 1).last() == pieces@[i as int]@);
        }
        proof {
            reveal_strlit(".");
            assert("."@ =~= seq!['.']);
        }
        if !pieces[i].as_str().is_empty() && !same_text(pieces[i].as_str(), ".") {
            out.push(pieces[i].clone());
            proof {
                assert(texts(out@) =~= texts(before).push(pieces@[i as int]@));
            }
        }
        i += 1;
    }
    proof {
        assert(texts(pieces@).take(pieces@.len() as int) =~= texts(pieces@));
    }
    out
}

/// The decimal digit with value `d`.
fn digit_text(d: u64) -> (r: &'static str)
    requires
        d < 10,
    ensures
        r@ =~= seq![digit(d as int)],
{
    if d == 0 {
        proof {
            reveal_strlit("0");
        }
        "0"
    } else if d == 1 {
        proof {
            reveal_strlit("1");
        }
        "1"
    } else if d == 2 {
        proof {
            reveal_strlit("2");
        }
        "2"
    } else if d == 3 {
        proof {
            reveal_strlit("3");
        }
        "3"
    } else if d == 4 {
        proof {
            reveal_strlit("4");
        }
        "4"
    } else if d == 5 {
        proof {
            reveal_strlit("5");
        }
        "5"
    } else if d == 6 {
        proof {
            reveal_strlit("6");
        }
        "6"
    } else if d == 7 {
        proof {
            reveal_strlit("7");
        }
        "7"
    } else if d == 8 {
        proof {
            reveal_strlit("8");
        }
        "8"
    } else {
        proof {
            reveal_strlit("9");
        }
        "9"
    }
}

/// `n` in decimal.
pub fn decimal_text(n: u64) -> (r: String)
    ensures
        r@ == decimal(n as nat),
    decreases n,
{
    if n < 10 {
        digit_text(n).to_owned()
    } else {
        let mut out: String = decimal_text(n / 10);
        let ghost before = out@;
        out.append(digit_text(n % 10));
        assert(out@ =~= before.push(digit((n % 10) as int)));
        out
    }
}

/// `a` and then `b`.
pub fn joined(a: &str, b: &str) -> (r: String)
    ensures
        r@ == a@ + b@,
{
    let mut out: String = a.to_owned();
    out.append(b);
    out
}

/// What stands in `s` before the first `c`.
pub fn text_until(s: &str, c: char) -> (r: String)
    ensures
        r@ == until(s@, c),
{
    let cs: Vec<char> = chars_of(s);
    let mut i: usize = 0;
    while i < cs.len() && cs[i] != c
        invariant
            cs@ == s@,
            i <= cs.len(),
            forall|j: int| 0 <= j < i ==> s@[j] != c,
        decreases cs.len() - i,
    {
        i += 1;
    }
    proof {
        lemma_until(s@, c, i as int);
    }
    s.substring_char(0, i).to_owned()
}

/// `s` without the runs of `c` at its two ends.
pub fn trimmed(s: &str, c: char) -> (r: String)
    ensures
        r@ == trim_end(trim_start(s@, c), c),
{
    let cs: Vec<char> = chars_of(s);
    let mut i: usize = 0;
    while i < cs.len() && cs[i] == c
        invariant
            cs@ == s@,
            i <= cs.len(),
            forall|j: int| 0 <= j < i ==> s@[j] == c,
        decreases cs.len() - i,
    {
        i += 1;
    }
    let mut k: usize = cs.len();
    while k > i && cs[k - 1] == c
        invariant
            cs@ == s@,
            i <= k <= cs.len(),
            forall|j: int| k <= j < cs.len() ==> s@[j] == c,
        decreases k,
    {
        k -= 1;
    }
    proof {
        lemma_trim_start(s@, c, i as int);
        let rest = s@.skip(i as int);
        assert forall|j: int| k - i <= j < rest.len() implies rest[j] == c by {
            assert(rest[j] == s@[i + j]);
        }
        lemma_trim_end(rest, c, k - i);
        assert(rest.take(k - i) =~= s@.subrange(i as int, k as int));
    }
    s.substring_char(i, k).to_owned()
}

/// The form in which Rust's `Debug` shows a text: in double quotes, with the
/// characters that need it escaped.
pub uninterp spec fn debug_form(s: Seq<char>) -> Seq<char>;

/// `<str as core::fmt::Debug>::fmt`, through `format!`. Claimed: what it gives
/// is a function of the text.
#[verifier::external_body]
pub(crate) fn debug_text(s: &str) -> (r: String)
    ensures
        r@ == debug_form(s@),
{
    format!("{:?}", s)
}

// ---------------------------------------------------------------------------
// Facts about the models
// ---------------------------------------------------------------------------

/// There is at least one piece.
pub proof fn lemma_split_nonempty(s: Seq<char>, sep: char)
    ensures
        split(s, sep).len() >= 1,
    decreases s.len(),
{
    if s.len() > 0 {
        lemma_split_nonempty(s.drop_last(), sep);
    }
}

/// A separator parts the pieces before it from those after it.
pub proof fn lemma_split_join(a: Seq<char>, sep: char, b: Seq<char>)
    ensures
        split(a.push(sep) + b, sep) == split(a, sep) + split(b, sep),
    decreases b.len(),
{
    let whole = a.push(sep) + b;
    if b.len() == 0 {
        assert(whole =~= a.push(sep));
        assert(whole.drop_last() =~= a);
        assert(split(whole, sep) =~= split(a, sep) + split(b, sep));
    } else {
        assert(whole.drop_last() =~= a.push(sep) + b.drop_last());
        lemma_split_join(a, sep, b.drop_last());
        lemma_split_nonempty(b.drop_last(), sep);
        assert(split(whole, sep) =~= split(a, sep) + split(b, sep));
    }
}

/// Keeping the pieces that name something can be done part by part.
pub proof fn lemma_named_join(a: Seq<Seq<char>>, b: Seq<Seq<char>>)
    ensures
        named(a + b) == named(a) + named(b),
    decreases b.len(),
{
    if b.len() == 0 {
        assert(a + b =~= a);
        assert(named(a) + named(b) =~= named(a));
    } else {
        assert((a + b).drop_last() =~= a + b.drop_last());
        lemma_named_join(a, b.drop_last());
        assert(named(a + b) =~= named(a) + named(b));
    }
}

/// The names along `a/b` are those along `a` and then those along `b`.
pub proof fn lemma_components_join(a: Seq<char>, b: Seq<char>)
    ensures
        components(a.push('/') + b) == components(a) + components(b),
{
    lemma_split_join(a, '/', b);
    lemma_named_join(split(a, '/'), split(b, '/'));
}

/// A path without characters has no names.
pub proof fn lemma_components_empty()
    ensures
        components(Seq::<char>::empty()) == Seq::<Seq<char>>::empty(),
{
    let pieces = split(Seq::<char>::empty(), '/');
    assert(pieces.drop_last() =~= Seq::<Seq<char>>::empty());
    assert(named(pieces.drop_last()) =~= Seq::<Seq<char>>::empty());
}

/// A text without the separator is its only piece.
pub proof fn lemma_split_without(s: Seq<char>, sep: char)
    requires
        !s.contains(sep),
    ensures
        split(s, sep) == seq![s],
    decreases s.len(),
{
    if s.len() == 0 {
        assert(s =~= Seq::<char>::empty());
    } else {
        let init = s.drop_last();
        if init.contains(sep) {
            let i = choose|i: int| 0 <= i < init.len() && init[i] == sep;
            assert(s[i] == sep);
        }
        assert(s[s.len() - 1] == s.last());
        lemma_split_without(init, sep);
        assert(init.push(s.last()) =~= s);
        assert(split(s, sep) =~= seq![s]);
    }
}

/// A joined text begins with its first part.
pub proof fn lemma_prefix_of_join(a: Seq<char>, b: Seq<char>)
    ensures
        starts_with(a + b, a),
        (a + b).skip(a.len() as int) == b,
{
    assert((a + b).take(a.len() as int) =~= a);
    assert((a + b).skip(a.len() as int) =~= b);
}

/// The text before the first `c` is what stands before position `i`, when `c`
/// stands nowhere before `i` and `i` is the end or holds `c`.
pub proof fn lemma_until(s: Seq<char>, c: char, i: int)
    requires
        0 <= i <= s.len(),
        forall|j: int| 0 <= j < i ==> s[j] != c,
        i == s.len() || s[i] == c,
    ensures
        until(s, c) == s.take(i),
    decreases i,
{
    if i == 0 {
        assert(s.take(0) =~= Seq::<char>::empty());
    } else {
        let rest = s.skip(1);
        assert forall|j: int| 0 <= j < i - 1 implies rest[j] != c by {
            assert(rest[j] == s[j + 1]);
        }
        assert(s[0] != c);
        lemma_until(rest, c, i - 1);
        assert(s.take(i) =~= seq![s[0]] + rest.take(i - 1));
    }
}

/// Trimming drops the first `i` characters when they are all `c` and no `c`
/// follows them.
pub proof fn lemma_trim_start(s: Seq<char>, c: char, i: int)
    requires
        0 <= i <= s.len(),
        forall|j: int| 0 <= j < i ==> s[j] == c,
        i == s.len() || s[i] != c,
    ensures
        trim_start(s, c) == s.skip(i),
    decreases i,
{
    if i == 0 {
        assert(s.skip(0) =~= s);
    } else {
        let rest = s.skip(1);
        assert forall|j: int| 0 <= j < i - 1 implies rest[j] == c by {
            assert(rest[j] == s[j + 1]);
        }
        assert(s[0] == c);
        lemma_trim_start(rest, c, i - 1);
        assert(rest.skip(i - 1) =~= s.skip(i));
    }
}

/// Trimming keeps the first `k` characters when all others are `c` and no `c`
/// stands before them.
pub proof fn lemma_trim_end(s: Seq<char>, c: char, k: int)
    requires
        0 <= k <= s.len(),
        forall|j: int| k <= j < s.len() ==> s[j] == c,
        k == 0 || s[k - 1] != c,
    ensures
        trim_end(s, c) == s.take(k),
    decreases s.len() - k,
{
    if k == s.len() {
        assert(s.take(k) =~= s);
    } else {
        let init = s.drop_last();
        assert forall|j: int| k <= j < init.len() implies init[j] == c by {
            assert(init[j] == s[j]);
        }
        assert(s.last() == s[s.len() - 1]);
        lemma_trim_end(init, c, k);
        assert(init.take(k) =~= s.take(k));
    }
}

/// The text before the first `c` is a prefix that is free of `c`, and where it
/// is not everything, `c` follows it.
pub proof fn lemma_until_is_prefix(s: Seq<char>, c: char)
    ensures
        until(s, c).len() <= s.len(),
        until(s, c) == s.take(until(s, c).len() as int),
        !until(s, c).contains(c),
        until(s, c).len() < s.len() ==> s[until(s, c).len() as int] == c,
    decreases s.len(),
{
    if s.len() == 0 || s[0] == c {
        assert(s.take(0) =~= Seq::<char>::empty());
    } else {
        let rest = s.skip(1);
        lemma_until_is_prefix(rest, c);
        let u = until(rest, c);
        assert(s.take(u.len() as int + 1) =~= seq![s[0]] + rest.take(u.len() as int));
        assert forall|i: int| 0 <= i < u.len() + 1 implies until(s, c)[i] != c by {
            if i > 0 {
                assert(until(s, c)[i] == u[i - 1]);
            }
        }
    }
}

/// The parts of a text around its last `c`.
pub fn split_last(s: &str, c: char) -> (r: (Option<String>, String))
    ensures
        r.1@ == after_last(s@, c),
        match r.0 {
            Some(before) => before_last(s@, c) == Some(before@),
            None => before_last(s@, c) is None,
        },
{
    let cs: Vec<char> = chars_of(s);
    let mut k: usize = cs.len();
    while k > 0 && cs[k - 1] != c
        invariant
            cs@ == s@,
            k <= cs.len(),
            forall|j: int| k <= j < cs.len() ==> s@[j] != c,
        decreases k,
    {
        k -= 1;
    }
    proof {
        lemma_last(s@, c, k as int);
    }
    let after: String = s.substring_char(k, cs.len()).to_owned();
    proof {
        assert(s@.subrange(k as int, s@.len() as int) =~= s@.skip(k as int));
    }
    if k == 0 {
        (None, after)
    } else {
        proof {
            assert(s@.subrange(0, k - 1) =~= s@.take(k - 1));
        }
        (Some(s.substring_char(0, k - 1).to_owned()), after)
    }
}

/// Where the last `c` stands settles what stands before and after it.
pub proof fn lemma_last(s: Seq<char>, c: char, k: int)
    requires
        0 <= k <= s.len(),
        forall|j: int| k <= j < s.len() ==> s[j] != c,
        k == 0 || s[k - 1] == c,
    ensures
        after_last(s, c) == s.skip(k),
        before_last(s, c) == if k == 0 {
            None::<Seq<char>>
        } else {
            Some(s.take(k - 1))
        },
    decreases s.len(),
{
    if s.len() == 0 {
        assert(s.skip(k) =~= Seq::<char>::empty());
    } else if s.last() == c {
        assert(k == s.len()) by {
            if k < s.len() {
                assert(s[s.len() - 1] != c);
            }
        }
        assert(s.skip(k) =~= Seq::<char>::empty());
        assert(s.take(k - 1) =~= s.drop_last());
    } else {
        let init = s.drop_last();
        assert forall|j: int| k <= j < init.len() implies init[j] != c by {
            assert(init[j] == s[j]);
        }
        assert(k <= init.len());
        lemma_last(init, c, k);
        assert(s.skip(k) =~= init.skip(k).push(s.last()));
        if k > 0 {
            assert(s.take(k - 1) =~= init.take(k - 1));
        }
    }
}

// ---------------------------------------------------------------------------
// Laws
// ---------------------------------------------------------------------------

/// Each string of a vector gives its text, at its place.
pub proof fn law_texts_keep_their_places(v: Seq<String>)
    ensures
        texts(v).len() == v.len(),
        forall|i: int| 0 <= i < v.len() ==> #[trigger] texts(v)[i] == v[i]@,
{
}

/// A piece without slashes is a single name, unless it is empty or a lone dot.
/// With [`lemma_components_join`] this settles the names along every path.
pub proof fn law_piece_is_its_own_name(piece: Seq<char>)
    requires
        !piece.contains('/'),
    ensures
        piece.len() > 0 && piece != seq!['.'] ==> components(piece) == seq![piece],
        piece.len() == 0 || piece == seq!['.'] ==> components(piece) == Seq::<Seq<char>>::empty(),
{
    lemma_split_without(piece, '/');
    assert(seq![piece].drop_last() =~= Seq::<Seq<char>>::empty());
    assert(named(seq![piece].drop_last()) =~= Seq::<Seq<char>>::empty());
    assert(seq![piece].last() == piece);
    assert(Seq::<Seq<char>>::empty().push(piece) =~= seq![piece]);
}

/// No name along a path is empty, holds a slash or is a lone dot.
pub proof fn law_names_are_names(path: Seq<char>)
    ensures
        forall|i: int|
            0 <= i < components(path).len() ==> (#[trigger] components(path)[i]).len() > 0
                && !components(path)[i].contains('/') && components(path)[i] != seq!['.'],
{
    lemma_pieces_hold_no_separator(path, '/');
    lemma_named_are_pieces(split(path, '/'));
}

/// No piece holds the separator.
pub proof fn lemma_pieces_hold_no_separator(s: Seq<char>, sep: char)
    ensures
        forall|i: int| 0 <= i < split(s, sep).len() ==> !(#[trigger] split(s, sep)[i]).contains(sep),
    decreases s.len(),
{
    if s.len() > 0 {
        let init = split(s.drop_last(), sep);
        lemma_pieces_hold_no_separator(s.drop_last(), sep);
        lemma_split_nonempty(s.drop_last(), sep);
        assert forall|i: int| 0 <= i < split(s, sep).len() implies !(#[trigger] split(
            s,
            sep,
        )[i]).contains(sep) by {
            let piece = split(s, sep)[i];
            if s.last() == sep {
                if i < init.len() {
                    assert(piece == init[i]);
                }
            } else if i < init.len() - 1 {
                assert(piece == init[i]);
            } else {
                assert(!init[init.len() - 1].contains(sep));
                if piece.contains(sep) {
                    let k = choose|k: int| 0 <= k < piece.len() && piece[k] == sep;
                    assert(init.last()[k] == sep);
                }
            }
        }
    }
}

proof fn lemma_named_are_pieces(pieces: Seq<Seq<char>>)
    ensures
        forall|i: int|
            0 <= i < named(pieces).len() ==> is_name(#[trigger] named(pieces)[i])
                && pieces.contains(named(pieces)[i]),
    decreases pieces.len(),
{
    if pieces.len() > 0 {
        let init = pieces.drop_last();
        lemma_named_are_pieces(init);
        assert forall|i: int| 0 <= i < named(pieces).len() implies is_name(
            #[trigger] named(pieces)[i],
        ) && pieces.contains(named(pieces)[i]) by {
            if i < named(init).len() {
                assert(named(pieces)[i] == named(init)[i]);
                let k = init.index_of(named(init)[i]);
                assert(pieces[k] == named(init)[i]);
            } else {
                assert(pieces[pieces.len() - 1] == named(pieces)[i]);
            }
        }
    }
}

/// A number in decimal is read back as that number: it has digits only, none of
/// them a leading zero, and adding them up from the left gives the number.
pub proof fn law_decimal_is_read_back(n: nat, next: spec_fn(int, char) -> int)
    requires
        forall|value: int, c: char| #[trigger]
            next(value, c) == 10 * value + (c as int - '0' as int),
    ensures
        decimal(n).len() > 0,
        forall|i: int| 0 <= i < decimal(n).len() ==> '0' <= #[trigger] decimal(n)[i] <= '9',
        decimal(n).len() > 1 ==> decimal(n)[0] != '0',
        decimal(n).fold_left(0int, next) == n,
    decreases n,
{
    reveal_with_fuel(Seq::fold_left, 2);
    if n < 10 {
        assert(decimal(n).drop_last() =~= Seq::<char>::empty());
        assert(decimal(n).last() == digit(n as int));
        assert(decimal(n).fold_left(0int, next) == next(0, digit(n as int)));
    } else {
        let init = decimal(n / 10);
        law_decimal_is_read_back(n / 10, next);
        assert(decimal(n).drop_last() =~= init);
        assert(decimal(n).last() == digit((n % 10) as int));
        assert(decimal(n).fold_left(0int, next) == next(
            init.fold_left(0int, next),
            digit((n % 10) as int),
        ));
        if init.len() == 1 {
            assert(init[0] != '0') by {
                if n / 10 < 10 {
                } else {
                    law_decimal_is_read_back(n / 10 / 10, next);
                    assert(init.len() == decimal(n / 10 / 10).len() + 1);
                }
            }
        }
        assert(decimal(n)[0] == init[0]);
    }
}

/// The first character in which two texts differ decides which stands before the
/// other.
pub proof fn law_first_difference_decides(
    common: Seq<char>,
    x: char,
    a: Seq<char>,
    y: char,
    b: Seq<char>,
)
    requires
        x != y,
    ensures
        text_lt(common.push(x) + a, common.push(y) + b) <==> x < y,
    decreases common.len(),
{
    let s = common.push(x) + a;
    let t = common.push(y) + b;
    if common.len() > 0 {
        assert(s.skip(1) =~= common.skip(1).push(x) + a);
        assert(t.skip(1) =~= common.skip(1).push(y) + b);
        law_first_difference_decides(common.skip(1), x, a, y, b);
    }
}

/// A join begins with its first part, ends with its last and holds each part
/// where it was put.
pub proof fn law_parts_are_found(a: Seq<char>, p: Seq<char>, b: Seq<char>)
    ensures
        starts_with(p + b, p),
        ends_with(a + p, p),
        occurs_at(a + p + b, p, a.len() as int),
        contains_text(a + p + b, p),
{
    assert((p + b).take(p.len() as int) =~= p);
    assert((a + p).skip((a + p).len() - p.len()) =~= p);
    assert((a + p + b).subrange(a.len() as int, a.len() as int + p.len()) =~= p);
    assert(occurs_at(a + p + b, p, a.len() as int));
}

/// What is found in a text is there: the text is a join of what was found and
/// what stands on either side.
pub proof fn law_what_is_found_is_there(s: Seq<char>, p: Seq<char>, i: int)
    ensures
        starts_with(s, p) ==> s == p + s.skip(p.len() as int),
        ends_with(s, p) ==> s == s.take(s.len() - p.len()) + p,
        occurs_at(s, p, i) ==> 0 <= i && s == s.take(i) + p + s.skip(i + p.len()),
        first_at(s, p, i) ==> occurs_at(s, p, i) && forall|j: int|
            j < i ==> !#[trigger] occurs_at(s, p, j),
        contains_text(s, p) ==> exists|j: int| #[trigger] occurs_at(s, p, j),
{
    if starts_with(s, p) {
        assert(s =~= p + s.skip(p.len() as int));
    }
    if ends_with(s, p) {
        assert(s =~= s.take(s.len() - p.len()) + p);
    }
    if occurs_at(s, p, i) {
        assert(s =~= s.take(i) + p + s.skip(i + p.len()));
    }
}

} // verus!
