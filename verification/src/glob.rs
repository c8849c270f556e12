//! Conservative prune predicate for the hierarchy walk.
//!
//! A glob pattern for `group=` is compiled into a [`GlobPredicate`], which
//! tells whether a walk that stands at a path can still come to a match at or
//! below it. A subtree for which the answer is no need not be visited. The
//! answer errs on the side of visiting: an absolute pattern that uses only `*`
//! is judged name by name, and every other pattern never prunes.

use crate::text;
use vstd::prelude::*;
use vstd::string::*;

verus! {

// ---------------------------------------------------------------------------
// What a pattern matches
// ---------------------------------------------------------------------------

/// The text that `pieces` make when the gaps between them are filled with
/// `gaps`, one gap after each piece but the last.
pub open spec fn fill(pieces: Seq<Seq<char>>, gaps: Seq<Seq<char>>) -> Seq<char>
    decreases pieces.len(),
{
    if pieces.len() == 0 {
        Seq::<char>::empty()
    } else if pieces.len() == 1 {
        pieces[0]
    } else {
        pieces[0] + gaps[0] + fill(pieces.skip(1), gaps.skip(1))
    }
}

/// `gaps` fit between `pieces`: there is one fewer of them, and none of them
/// holds a slash.
pub open spec fn are_gaps(pieces: Seq<Seq<char>>, gaps: Seq<Seq<char>>) -> bool {
    &&& gaps.len() + 1 == pieces.len()
    &&& forall|i: int| 0 <= i < gaps.len() ==> !(#[trigger] gaps[i]).contains('/')
}

/// `name` arises from `pattern` when each `*` is replaced with some text,
/// which may be empty and holds no slash. Every other character stands for
/// itself.
pub open spec fn star_matches(pattern: Seq<char>, name: Seq<char>) -> bool {
    exists|gaps: Seq<Seq<char>>|
        are_gaps(text::split(pattern, '*'), gaps) && #[trigger] fill(
            text::split(pattern, '*'),
            gaps,
        ) == name
}

// ---------------------------------------------------------------------------
// Slashes
// ---------------------------------------------------------------------------

/// How many slashes `s` holds.
spec fn slashes(s: Seq<char>) -> nat
    decreases s.len(),
{
    if s.len() == 0 {
        0
    } else {
        slashes(s.drop_last()) + if s.last() == '/' {
            1nat
        } else {
            0nat
        }
    }
}

/// How many slashes `pieces` hold together.
spec fn slashes_in(pieces: Seq<Seq<char>>) -> nat
    decreases pieces.len(),
{
    if pieces.len() == 0 {
        0
    } else {
        slashes_in(pieces.drop_last()) + slashes(pieces.last())
    }
}

proof fn lemma_slashes_join(a: Seq<char>, b: Seq<char>)
    ensures
        slashes(a + b) == slashes(a) + slashes(b),
    decreases b.len(),
{
    if b.len() == 0 {
        assert(a + b =~= a);
    } else {
        assert((a + b).drop_last() =~= a + b.drop_last());
        lemma_slashes_join(a, b.drop_last());
    }
}

proof fn lemma_no_slashes(s: Seq<char>)
    ensures
        slashes(s) == 0 <==> !s.contains('/'),
    decreases s.len(),
{
    if s.len() > 0 {
        let init = s.drop_last();
        lemma_no_slashes(init);
        if init.contains('/') {
            let i = choose|i: int| 0 <= i < init.len() && init[i] == '/';
            assert(s[i] == '/');
        }
        if s.contains('/') && s.last() != '/' {
            let i = choose|i: int| 0 <= i < s.len() && s[i] == '/';
            assert(init[i] == '/');
        }
        assert(s[s.len() - 1] == s.last());
    }
}

proof fn lemma_no_slashes_in(pieces: Seq<Seq<char>>)
    ensures
        slashes_in(pieces) == 0 <==> forall|i: int|
            0 <= i < pieces.len() ==> !(#[trigger] pieces[i]).contains('/'),
    decreases pieces.len(),
{
    if pieces.len() > 0 {
        let init = pieces.drop_last();
        lemma_no_slashes_in(init);
        lemma_no_slashes(pieces.last());
        if slashes_in(pieces) == 0 {
            assert forall|i: int| 0 <= i < pieces.len() implies !(#[trigger] pieces[i]).contains(
                '/',
            ) by {
                if i < init.len() {
                    assert(init[i] == pieces[i]);
                }
            }
        } else if slashes(pieces.last()) == 0 {
            let i = choose|i: int| 0 <= i < init.len() && (#[trigger] init[i]).contains('/');
            assert(pieces[i] == init[i]);
        } else {
            assert(pieces[pieces.len() - 1] == pieces.last());
        }
    }
}

/// Splitting on `*` keeps every slash.
proof fn lemma_slashes_split(s: Seq<char>)
    ensures
        slashes_in(text::split(s, '*')) == slashes(s),
    decreases s.len(),
{
    if s.len() == 0 {
        let one = seq![Seq::<char>::empty()];
        assert(one.drop_last() =~= Seq::<Seq<char>>::empty());
        assert(slashes_in(one.drop_last()) == 0);
    } else {
        let init = text::split(s.drop_last(), '*');
        lemma_slashes_split(s.drop_last());
        text::lemma_split_nonempty(s.drop_last(), '*');
        if s.last() == '*' {
            assert(init.push(Seq::<char>::empty()).drop_last() =~= init);
        } else {
            let longer = init.drop_last().push(init.last().push(s.last()));
            assert(longer.drop_last() =~= init.drop_last());
            assert(init.last().push(s.last()).drop_last() =~= init.last());
        }
    }
}

proof fn lemma_slashes_in_front(first: Seq<char>, pieces: Seq<Seq<char>>)
    ensures
        slashes_in(seq![first] + pieces) == slashes(first) + slashes_in(pieces),
    decreases pieces.len(),
{
    let all = seq![first] + pieces;
    if pieces.len() == 0 {
        assert(all.drop_last() =~= Seq::<Seq<char>>::empty());
        assert(slashes_in(all.drop_last()) == 0);
    } else {
        assert(all.drop_last() =~= seq![first] + pieces.drop_last());
        lemma_slashes_in_front(first, pieces.drop_last());
    }
}

/// A filled text has the slashes of the pieces and those of the gaps.
proof fn lemma_slashes_fill(pieces: Seq<Seq<char>>, gaps: Seq<Seq<char>>)
    requires
        gaps.len() + 1 == pieces.len(),
    ensures
        slashes(fill(pieces, gaps)) == slashes_in(pieces) + slashes_in(gaps),
    decreases pieces.len(),
{
    let rest = pieces.skip(1);
    assert(pieces =~= seq![pieces[0]] + rest);
    lemma_slashes_in_front(pieces[0], rest);
    if pieces.len() == 1 {
        assert(slashes_in(rest) == 0);
        assert(slashes_in(gaps) == 0);
    } else {
        let more = gaps.skip(1);
        assert(gaps =~= seq![gaps[0]] + more);
        lemma_slashes_in_front(gaps[0], more);
        lemma_slashes_fill(rest, more);
        lemma_slashes_join(pieces[0], gaps[0]);
        lemma_slashes_join(pieces[0] + gaps[0], fill(rest, more));
    }
}

/// `name` is one of the texts that `pieces` make with some gaps, which may
/// hold slashes.
spec fn fillable(pieces: Seq<Seq<char>>, name: Seq<char>) -> bool {
    exists|gaps: Seq<Seq<char>>|
        gaps.len() + 1 == pieces.len() && #[trigger] fill(pieces, gaps) == name
}

/// The gaps hold no slash where the name has as many slashes as the pattern.
proof fn lemma_star_matches(pattern: Seq<char>, name: Seq<char>)
    ensures
        star_matches(pattern, name) <==> fillable(text::split(pattern, '*'), name) && slashes(name)
            == slashes(pattern),
{
    let pieces = text::split(pattern, '*');
    lemma_slashes_split(pattern);
    if star_matches(pattern, name) {
        let gaps = choose|gaps: Seq<Seq<char>>|
            are_gaps(pieces, gaps) && #[trigger] fill(pieces, gaps) == name;
        lemma_no_slashes_in(gaps);
        lemma_slashes_fill(pieces, gaps);
    }
    if fillable(pieces, name) && slashes(name) == slashes(pattern) {
        let gaps = choose|gaps: Seq<Seq<char>>|
            gaps.len() + 1 == pieces.len() && #[trigger] fill(pieces, gaps) == name;
        lemma_no_slashes_in(gaps);
        lemma_slashes_fill(pieces, gaps);
        assert(are_gaps(pieces, gaps));
    }
}

/// How many slashes a text holds.
fn slash_count(cs: &Vec<char>) -> (r: usize)
    ensures
        r == slashes(cs@),
{
    let mut n: usize = 0;
    let mut i: usize = 0;
    while i < cs.len()
        invariant
            i <= cs.len(),
            n <= i,
            n == slashes(cs@.take(i as int)),
        decreases cs.len() - i,
    {
        assert(cs@.take(i + 1).drop_last() =~= cs@.take(i as int));
        if cs[i] == '/' {
            n += 1;
        }
        i += 1;
    }
    assert(cs@.take(cs@.len() as int) =~= cs@);
    n
}

// ---------------------------------------------------------------------------
// The greedy search
// ---------------------------------------------------------------------------

/// `s` consists of a gap and the first of `pieces`, a gap and the next, and so
/// on, and ends with the last of them.
spec fn follows(pieces: Seq<Seq<char>>, s: Seq<char>) -> bool
    decreases pieces.len(),
{
    if pieces.len() == 0 {
        false
    } else if pieces.len() == 1 {
        text::ends_with(s, pieces[0])
    } else {
        exists|i: int| #[trigger]
            text::occurs_at(s, pieces[0], i) && follows(pieces.skip(1), s.skip(i + pieces[0].len()))
    }
}

proof fn lemma_fillable_follows(pieces: Seq<Seq<char>>, name: Seq<char>)
    requires
        pieces.len() >= 2,
    ensures
        fillable(pieces, name) <==> text::starts_with(name, pieces[0]) && follows(
            pieces.skip(1),
            name.skip(pieces[0].len() as int),
        ),
    decreases pieces.len(),
{
    let head = pieces[0];
    let rest = pieces.skip(1);
    let tail = name.skip(head.len() as int);
    if fillable(pieces, name) {
        let gaps = choose|gaps: Seq<Seq<char>>|
            gaps.len() + 1 == pieces.len() && #[trigger] fill(pieces, gaps) == name;
        let gap = gaps[0];
        let inner = fill(rest, gaps.skip(1));
        assert(name == head + gap + inner);
        assert(name.take(head.len() as int) =~= head);
        assert(tail =~= gap + inner);
        if rest.len() == 1 {
            assert(tail.skip(tail.len() - rest[0].len()) =~= rest[0]);
        } else {
            assert(fillable(rest, inner));
            lemma_fillable_follows(rest, inner);
            let i = gap.len() as int;
            assert(inner.take(rest[0].len() as int) == rest[0]);
            assert(tail.subrange(i, i + rest[0].len()) =~= inner.take(rest[0].len() as int));
            assert(text::occurs_at(tail, rest[0], i));
            assert(tail.skip(i + rest[0].len()) =~= inner.skip(rest[0].len() as int));
        }
    }
    if text::starts_with(name, head) && follows(rest, tail) {
        assert(name =~= head + tail);
        if rest.len() == 1 {
            let gap = tail.take(tail.len() - rest[0].len());
            let gaps = seq![gap];
            assert(tail =~= gap + rest[0]);
            assert(fill(rest, gaps.skip(1)) == rest[0]);
            assert(fill(pieces, gaps) =~= name);
            assert(fillable(pieces, name));
        } else {
            let i = choose|i: int| #[trigger]
                text::occurs_at(tail, rest[0], i) && follows(rest.skip(1), tail.skip(i + rest[0].len()));
            let gap = tail.take(i);
            let inner = tail.skip(i);
            assert(inner.take(rest[0].len() as int) =~= tail.subrange(i, i + rest[0].len()));
            assert(inner.skip(rest[0].len() as int) =~= tail.skip(i + rest[0].len()));
            lemma_fillable_follows(rest, inner);
            let more = choose|gaps: Seq<Seq<char>>|
                gaps.len() + 1 == rest.len() && #[trigger] fill(rest, gaps) == inner;
            let gaps = seq![gap] + more;
            assert(gaps.skip(1) =~= more);
            assert(tail =~= gap + inner);
            assert(fill(pieces, gaps) =~= name);
            assert(fillable(pieces, name));
        }
    }
}

/// A longer text before the same ending leaves room for the same pieces.
proof fn lemma_follows_longer(pieces: Seq<Seq<char>>, s: Seq<char>, k: int)
    requires
        0 <= k <= s.len(),
        follows(pieces, s.skip(k)),
    ensures
        follows(pieces, s),
{
    let t = s.skip(k);
    if pieces.len() == 1 {
        assert(t.skip(t.len() - pieces[0].len()) =~= s.skip(s.len() - pieces[0].len()));
    } else {
        let i = choose|i: int| #[trigger]
            text::occurs_at(t, pieces[0], i) && follows(pieces.skip(1), t.skip(i + pieces[0].len()));
        assert(s.subrange(k + i, k + i + pieces[0].len()) =~= t.subrange(i, i + pieces[0].len()));
        assert(text::occurs_at(s, pieces[0], k + i));
        assert(s.skip(k + i + pieces[0].len()) =~= t.skip(i + pieces[0].len()));
    }
}

/// Whatever follows the pieces ends with the last of them.
proof fn lemma_follows_ends(pieces: Seq<Seq<char>>, s: Seq<char>)
    requires
        follows(pieces, s),
    ensures
        pieces.len() >= 1,
        text::ends_with(s, pieces.last()),
    decreases pieces.len(),
{
    if pieces.len() > 1 {
        let i = choose|i: int| #[trigger]
            text::occurs_at(s, pieces[0], i) && follows(pieces.skip(1), s.skip(i + pieces[0].len()));
        let t = s.skip(i + pieces[0].len());
        lemma_follows_ends(pieces.skip(1), t);
        let last = pieces.last();
        assert(pieces.skip(1).last() == last);
        assert(t.skip(t.len() - last.len()) =~= s.skip(s.len() - last.len()));
    }
}

/// Taking the first place at which the next piece stands loses no match.
proof fn lemma_follows_greedy(pieces: Seq<Seq<char>>, s: Seq<char>, i: int)
    requires
        pieces.len() >= 2,
        text::first_at(s, pieces[0], i),
    ensures
        follows(pieces, s) <==> follows(pieces.skip(1), s.skip(i + pieces[0].len())),
{
    let n = pieces[0].len();
    if follows(pieces, s) {
        let j = choose|j: int| #[trigger]
            text::occurs_at(s, pieces[0], j) && follows(pieces.skip(1), s.skip(j + n));
        assert(i <= j);
        let t = s.skip(i + n);
        assert(t.skip(j - i) =~= s.skip(j + n));
        lemma_follows_longer(pieces.skip(1), t, j - i);
    }
}

/// Whether a text arises from a pattern when each `*` is replaced with any
/// text at all.
fn fits(pattern: &str, name: &str) -> (r: bool)
    ensures
        r == fillable(text::split(pattern@, '*'), name@),
{
    let parts: Vec<String> = text::split_text(pattern, '*');
    let ghost pieces = text::split(pattern@, '*');
    proof {
        text::lemma_split_nonempty(pattern@, '*');
        assert(parts@.len() == pieces.len());
    }
    let name_chars: Vec<char> = text::chars_of(name);
    let first: Vec<char> = text::chars_of(parts[0].as_str());
    assert(first@ == pieces[0]);
    if parts.len() == 1 {
        proof {
            let none = Seq::<Seq<char>>::empty();
            assert(fill(pieces, none) == pieces[0]);
        }
        return text::same_chars(&first, &name_chars);
    }
    proof {
        lemma_fillable_follows(pieces, name@);
    }
    if !text::stands_at(&name_chars, &first, 0) {
        assert(name@.take(first@.len() as int) =~= name@.subrange(0, first@.len() as int));
        return false;
    }
    let last: Vec<char> = text::chars_of(parts[parts.len() - 1].as_str());
    assert(last@ == pieces.last());
    assert(name@.take(first@.len() as int) =~= name@.subrange(0, first@.len() as int));
    let ghost tail = name@.skip(first@.len() as int);
    let ghost rest = pieces.skip(1);
    proof {
        if follows(rest, tail) {
            lemma_follows_ends(rest, tail);
            assert(rest.last() == last@);
            assert(tail.skip(tail.len() - last@.len()) =~= name@.skip(name@.len() - last@.len()));
        }
    }
    if first.len() > name_chars.len() || last.len() > name_chars.len() - first.len() {
        return false;
    }
    let stop: usize = name_chars.len() - last.len();
    if !text::stands_at(&name_chars, &last, stop) {
        assert(name@.skip(stop as int) =~= name@.subrange(stop as int, stop + last@.len()));
        return false;
    }
    assert(name@.skip(stop as int) =~= name@.subrange(stop as int, stop + last@.len()));
    let mut cursor: usize = first.len();
    let mut i: usize = 1;
    while i < parts.len() - 1
        invariant
            name_chars@ == name@,
            pieces == text::split(pattern@, '*'),
            text::texts(parts@) == pieces,
            last@ == pieces.last(),
            1 <= i <= parts.len() - 1,
            cursor <= stop,
            stop + last.len() == name_chars.len(),
            name@.skip(stop as int) == last@,
            fillable(pieces, name@) <==> follows(
                pieces.skip(i as int),
                name@.skip(cursor as int),
            ),
        decreases parts.len() - i,
    {
        let piece: Vec<char> = text::chars_of(parts[i].as_str());
        let ghost here = pieces.skip(i as int);
        let ghost left = name@.skip(cursor as int);
        let ghost n = piece@.len();
        proof {
            assert(text::texts(parts@)[i as int] == parts@[i as int]@);
            assert(here[0] == piece@);
            assert(here.skip(1) =~= pieces.skip(i + 1));
            assert forall|j: int| text::occurs_at(left, piece@, j) implies text::occurs_at(
                name@,
                piece@,
                cursor + j,
            ) by {
                assert(left.subrange(j, j + n) =~= name@.subrange(cursor + j, cursor + j + n));
            }
            assert forall|j: int| cursor <= j && text::occurs_at(name@, piece@, j) implies text::occurs_at(
                left,
                piece@,
                j - cursor,
            ) by {
                assert(left.subrange(j - cursor, j - cursor + n) =~= name@.subrange(j, j + n));
            }
        }
        match text::find_between(&name_chars, &piece, cursor, stop) {
            Some(at) => {
                proof {
                    assert(text::occurs_at(left, piece@, at - cursor));
                    assert(text::first_at(left, here[0], at - cursor));
                    lemma_follows_greedy(here, left, at - cursor);
                    assert(left.skip(at - cursor + n) =~= name@.skip(at + n));
                }
                cursor = at + piece.len();
            },
            None => {
                proof {
                    if follows(here, left) {
                        let j = choose|j: int| #[trigger]
                            text::occurs_at(left, here[0], j) && follows(
                                here.skip(1),
                                left.skip(j + here[0].len()),
                            );
                        lemma_follows_ends(here.skip(1), left.skip(j + n));
                        assert(here.skip(1).last() == last@);
                        assert(text::occurs_at(name@, piece@, cursor + j));
                    }
                }
                return false;
            },
        }
        i += 1;
    }
    proof {
        let here = pieces.skip(i as int);
        let left = name@.skip(cursor as int);
        assert(here[0] == last@);
        assert(left.skip(left.len() - last@.len()) =~= name@.skip(stop as int));
    }
    true
}

/// Match a single name against a single pattern segment that may contain zero
/// or more `*` wildcards. Each `*` matches zero or more characters that are no
/// slash.
pub fn star_match(pattern: &str, name: &str) -> (r: bool)
    ensures
        r == star_matches(pattern@, name@),
{
    proof {
        lemma_star_matches(pattern@, name@);
    }
    let pattern_chars: Vec<char> = text::chars_of(pattern);
    let name_chars: Vec<char> = text::chars_of(name);
    slash_count(&pattern_chars) == slash_count(&name_chars) && fits(pattern, name)
}

// ---------------------------------------------------------------------------
// The predicate
// ---------------------------------------------------------------------------

/// A pattern from which subtrees can be pruned: absolute, and without the
/// wildcards `?` and `[`.
pub open spec fn can_prune(pattern: Seq<char>) -> bool {
    pattern.len() > 0 && pattern[0] == '/' && !pattern.contains('?') && !pattern.contains('[')
}

/// What a pattern is compiled to: its names, or nothing where it never prunes.
pub open spec fn compiled(pattern: Seq<char>) -> Option<Seq<Seq<char>>> {
    if can_prune(pattern) {
        Some(text::components(pattern))
    } else {
        None
    }
}

/// The names in `names` match the patterns in `segments` one by one.
pub open spec fn names_match(segments: Seq<Seq<char>>, names: Seq<Seq<char>>) -> bool {
    forall|i: int|
        #![trigger segments[i]]
        #![trigger names[i]]
        0 <= i < names.len() ==> star_matches(segments[i], names[i])
}

/// The absolute pattern with the names `segments` matches `path`.
pub open spec fn path_matches(segments: Seq<Seq<char>>, path: Seq<char>) -> bool {
    text::components(path).len() == segments.len() && names_match(segments, text::components(path))
}

/// A walk that stands at `path` can still come to a match at or below it, as
/// far as a compiled pattern tells.
pub open spec fn may_match_below(segments: Option<Seq<Seq<char>>>, path: Seq<char>) -> bool {
    match segments {
        None => true,
        Some(segs) => text::components(path).len() <= segs.len() && names_match(
            segs,
            text::components(path),
        ),
    }
}

/// `path` is `top` or lies below it.
pub open spec fn at_or_below(path: Seq<char>, top: Seq<char>) -> bool {
    text::components(top).len() <= text::components(path).len() && text::components(path).take(
        text::components(top).len() as int,
    ) == text::components(top)
}

/// Conservative prefix predicate, compiled from a glob pattern.
#[derive(Clone)]
pub struct GlobPredicate {
    /// One pattern per name when the pattern is absolute and uses only `*`;
    /// `None` when nothing can be pruned.
    segments: Option<Vec<String>>,
}

impl View for GlobPredicate {
    type V = Option<Seq<Seq<char>>>;

    closed spec fn view(&self) -> Option<Seq<Seq<char>>> {
        match self.segments {
            None => None,
            Some(v) => Some(text::texts(v@)),
        }
    }
}

impl GlobPredicate {
    /// Parse a glob pattern into a prefix predicate.
    ///
    /// A relative pattern matches any suffix of a path, so nothing can be
    /// pruned by prefix; neither is anything pruned for a pattern with `?` or
    /// `[`. Empty names, from a leading, trailing or repeated slash, count for
    /// nothing, and neither does a lone dot.
    pub fn parse(pattern: &str) -> (r: Self)
        ensures
            r@ == compiled(pattern@),
    {
        let cs: Vec<char> = text::chars_of(pattern);
        if cs.len() == 0 || cs[0] != '/' {
            return GlobPredicate { segments: None };
        }
        let mut i: usize = 0;
        while i < cs.len()
            invariant
                cs@ == pattern@,
                i <= cs.len(),
                forall|j: int| 0 <= j < i ==> cs@[j] != '?' && cs@[j] != '[',
            decreases cs.len() - i,
        {
            if cs[i] == '?' || cs[i] == '[' {
                assert(pattern@[i as int] == cs@[i as int]);
                return GlobPredicate { segments: None };
            }
            i += 1;
        }
        GlobPredicate { segments: Some(text::path_components(pattern)) }
    }

    /// Can the walk discover a match at or below `path`?
    ///
    /// `true` unless no path at or below `path` can match. When the pattern
    /// was not understood the answer is always `true`, so the walk proceeds.
    pub fn could_descendant_match(&self, path: &str) -> (r: bool)
        ensures
            r == may_match_below(self@, path@),
    {
        match &self.segments {
            None => true,
            Some(segs) => {
                let names: Vec<String> = text::path_components(path);
                if names.len() > segs.len() {
                    return false;
                }
                let mut i: usize = 0;
                while i < names.len()
                    invariant
                        self@ == Some(text::texts(segs@)),
                        text::texts(names@) == text::components(path@),
                        i <= names.len() <= segs.len(),
                        forall|j: int|
                            0 <= j < i ==> star_matches(
                                #[trigger] text::texts(segs@)[j],
                                text::texts(names@)[j],
                            ),
                    decreases names.len() - i,
                {
                    assert(text::texts(segs@)[i as int] == segs@[i as int]@);
                    assert(text::texts(names@)[i as int] == names@[i as int]@);
                    if !star_match(segs[i].as_str(), names[i].as_str()) {
                        return false;
                    }
                    i += 1;
                }
                true
            },
        }
    }
}

// ---------------------------------------------------------------------------
// Laws
// ---------------------------------------------------------------------------

/// Pruning loses no data: where a path matches the pattern, the predicate lets
/// the walk pass at that path and at every path above it.
pub proof fn law_no_match_is_pruned(pattern: Seq<char>, top: Seq<char>, path: Seq<char>)
    requires
        can_prune(pattern),
        path_matches(text::components(pattern), path),
        at_or_below(path, top),
    ensures
        may_match_below(compiled(pattern), top),
{
    let names = text::components(path);
    let upper = text::components(top);
    let segs = text::components(pattern);
    assert forall|i: int| 0 <= i < upper.len() implies star_matches(segs[i], upper[i]) by {
        assert(upper[i] == names[i]);
    }
}

/// A pruned subtree holds nothing worth visiting: where the predicate says no
/// at a path, it says no at every path below it.
pub proof fn law_prune_is_final(segments: Option<Seq<Seq<char>>>, top: Seq<char>, path: Seq<char>)
    requires
        at_or_below(path, top),
        !may_match_below(segments, top),
    ensures
        !may_match_below(segments, path),
{
    if may_match_below(segments, path) {
        let segs = segments->0;
        let names = text::components(path);
        let upper = text::components(top);
        assert forall|i: int| 0 <= i < upper.len() implies star_matches(segs[i], upper[i]) by {
            assert(upper[i] == names[i]);
        }
    }
}

/// At the depth of the pattern the predicate is exact.
pub proof fn law_exact_at_full_depth(pattern: Seq<char>, path: Seq<char>)
    requires
        can_prune(pattern),
        text::components(path).len() == text::components(pattern).len(),
    ensures
        may_match_below(compiled(pattern), path) <==> path_matches(text::components(pattern), path),
{
}

/// A relative pattern, and one with `?` or `[`, prunes nothing.
pub proof fn law_other_patterns_never_prune(pattern: Seq<char>, path: Seq<char>)
    requires
        !can_prune(pattern),
    ensures
        may_match_below(compiled(pattern), path),
{
}

/// A path that continues another after a slash lies below it.
pub proof fn law_extension_is_below(top: Seq<char>, rest: Seq<char>)
    ensures
        at_or_below(top.push('/') + rest, top),
{
    text::lemma_components_join(top, rest);
    assert((text::components(top) + text::components(rest)).take(text::components(top).len() as int)
        =~= text::components(top));
}

/// What a pattern is compiled to depends on its first character, its names and
/// which characters other than slashes and dots it holds.
proof fn lemma_same_compiled(a: Seq<char>, b: Seq<char>)
    requires
        a.len() > 0,
        b.len() > 0,
        a[0] == '/' <==> b[0] == '/',
        text::components(a) == text::components(b),
        forall|c: char| c != '/' && c != '.' ==> (a.contains(c) <==> b.contains(c)),
    ensures
        compiled(a) == compiled(b),
{
    assert(a.contains('?') <==> b.contains('?'));
    assert(a.contains('[') <==> b.contains('['));
}

/// A join holds what its two parts hold.
proof fn lemma_join_holds(a: Seq<char>, b: Seq<char>, c: char)
    ensures
        (a + b).contains(c) <==> a.contains(c) || b.contains(c),
{
    let whole = a + b;
    if whole.contains(c) {
        let i = choose|i: int| 0 <= i < whole.len() && whole[i] == c;
        if i < a.len() {
            assert(a[i] == c);
        } else {
            assert(b[i - a.len()] == c);
        }
    }
    if a.contains(c) {
        let i = choose|i: int| 0 <= i < a.len() && a[i] == c;
        assert(whole[i] == c);
    }
    if b.contains(c) {
        let i = choose|i: int| 0 <= i < b.len() && b[i] == c;
        assert(whole[a.len() + i] == c);
    }
}

/// A stretch between two slashes that names nothing counts for nothing.
proof fn lemma_no_name_counts_for_nothing(a: Seq<char>, mid: Seq<char>, b: Seq<char>)
    requires
        text::components(mid) == Seq::<Seq<char>>::empty(),
        forall|c: char| mid.contains(c) ==> c == '/' || c == '.',
    ensures
        compiled(a.push('/') + mid.push('/') + b) == compiled(a.push('/') + b),
{
    let long = a.push('/') + mid.push('/') + b;
    let short = a.push('/') + b;
    assert(long =~= a.push('/') + (mid.push('/') + b));
    text::lemma_components_join(a, mid.push('/') + b);
    text::lemma_components_join(mid, b);
    text::lemma_components_join(a, b);
    assert(text::components(mid) + text::components(b) =~= text::components(b));
    assert forall|c: char| c != '/' && c != '.' implies (long.contains(c) <==> short.contains(c)) by {
        lemma_join_holds(a.push('/'), mid.push('/') + b, c);
        lemma_join_holds(mid.push('/'), b, c);
        lemma_join_holds(a.push('/'), b, c);
        if mid.push('/').contains(c) {
            let i = choose|i: int| 0 <= i < mid.push('/').len() && mid.push('/')[i] == c;
            assert(mid[i] == c);
            assert(mid.contains(c));
        }
    }
    if a.len() > 0 {
        assert(long[0] == a[0] && short[0] == a[0]);
    } else {
        assert(long[0] == '/' && short[0] == '/');
    }
    lemma_same_compiled(long, short);
}

/// A doubled slash in a pattern counts as one.
pub proof fn law_double_slash_collapses(a: Seq<char>, b: Seq<char>)
    ensures
        compiled(a.push('/').push('/') + b) == compiled(a.push('/') + b),
{
    let empty = Seq::<char>::empty();
    text::lemma_components_empty();
    lemma_no_name_counts_for_nothing(a, empty, b);
    assert(a.push('/') + empty.push('/') + b =~= a.push('/').push('/') + b);
}

/// A lone dot between two slashes of a pattern counts for nothing.
pub proof fn law_lone_dot_counts_for_nothing(a: Seq<char>, b: Seq<char>)
    ensures
        compiled(a.push('/').push('.').push('/') + b) == compiled(a.push('/') + b),
{
    let dot = seq!['.'];
    text::lemma_split_without(dot, '/');
    assert(seq![dot].drop_last() =~= Seq::<Seq<char>>::empty());
    assert(text::named(seq![dot].drop_last()) =~= Seq::<Seq<char>>::empty());
    lemma_no_name_counts_for_nothing(a, dot, b);
    assert(a.push('/') + dot.push('/') + b =~= a.push('/').push('.').push('/') + b);
}

/// A slash at the end of a pattern counts for nothing.
pub proof fn law_trailing_slash_counts_for_nothing(a: Seq<char>)
    requires
        a.len() > 0,
    ensures
        compiled(a.push('/')) == compiled(a),
{
    text::lemma_components_join(a, Seq::<char>::empty());
    text::lemma_components_empty();
    assert(a.push('/') + Seq::<char>::empty() =~= a.push('/'));
    assert(text::components(a) + Seq::<Seq<char>>::empty() =~= text::components(a));
    assert forall|c: char| c != '/' implies (a.push('/').contains(c) <==> a.contains(c)) by {
        if a.contains(c) {
            let i = choose|i: int| 0 <= i < a.len() && a[i] == c;
            assert(a.push('/')[i] == c);
        }
        if a.push('/').contains(c) {
            let i = choose|i: int| 0 <= i < a.push('/').len() && a.push('/')[i] == c;
            assert(a[i] == c);
        }
    }
    lemma_same_compiled(a.push('/'), a);
}

/// A pattern without `*` matches only itself.
pub proof fn law_literal_matches_itself_only(pattern: Seq<char>, name: Seq<char>)
    requires
        !pattern.contains('*'),
    ensures
        star_matches(pattern, name) <==> pattern == name,
{
    text::lemma_split_without(pattern, '*');
    let pieces = text::split(pattern, '*');
    let none = Seq::<Seq<char>>::empty();
    assert(fill(pieces, none) == pattern);
}

/// A lone `*` matches every name; a name holds no slash.
pub proof fn law_star_matches_everything(name: Seq<char>)
    requires
        !name.contains('/'),
    ensures
        star_matches(seq!['*'], name),
{
    let pattern = seq!['*'];
    let empty = Seq::<char>::empty();
    assert(pattern.drop_last() =~= empty);
    let pieces = text::split(pattern, '*');
    assert(text::split(empty, '*') =~= seq![empty]);
    assert(pieces =~= seq![empty, empty]);
    let gaps = seq![name];
    assert(pieces.skip(1) =~= seq![empty]);
    assert(fill(pieces.skip(1), gaps.skip(1)) == empty);
    assert(fill(pieces, gaps) =~= name);
}

/// A pattern without a slash matches no text with one: no `*` reaches across a
/// slash.
pub proof fn law_star_crosses_no_slash(pattern: Seq<char>, name: Seq<char>)
    requires
        !pattern.contains('/'),
        name.contains('/'),
    ensures
        !star_matches(pattern, name),
{
    lemma_star_matches(pattern, name);
    lemma_no_slashes(pattern);
    lemma_no_slashes(name);
}

/// A pattern is read from the left: an empty one matches an empty name only, a
/// character other than `*` matches itself, and a `*` matches any number of
/// characters up to a slash. The rest of the pattern matches the rest of the name.
pub proof fn law_pattern_is_read_from_the_left(c: char, pattern: Seq<char>, name: Seq<char>)
    ensures
        star_matches(Seq::<char>::empty(), name) <==> name.len() == 0,
        c != '*' ==> (star_matches(seq![c] + pattern, name) <==> name.len() > 0 && name[0] == c
            && star_matches(pattern, name.skip(1))),
        c == '*' ==> (star_matches(seq![c] + pattern, name) <==> exists|k: int|
            0 <= k <= name.len() && !name.take(k).contains('/') && #[trigger] star_matches(
                pattern,
                name.skip(k),
            )),
{
    let none = Seq::<char>::empty();
    law_literal_matches_itself_only(none, name);
    if name.len() == 0 {
        assert(name =~= none);
    }
    let whole = seq![c] + pattern;
    let pieces = text::split(pattern, '*');
    let all = text::split(whole, '*');
    text::lemma_split_nonempty(pattern, '*');
    if c == '*' {
        assert(whole =~= none.push('*') + pattern);
        text::lemma_split_join(none, '*', pattern);
        assert(all =~= seq![none] + pieces);
        assert(all.skip(1) =~= pieces);
        if star_matches(whole, name) {
            let gaps = choose|gaps: Seq<Seq<char>>|
                are_gaps(all, gaps) && #[trigger] fill(all, gaps) == name;
            let rest = gaps.skip(1);
            let k = gaps[0].len() as int;
            assert(name == none + gaps[0] + fill(pieces, rest));
            assert(name.take(k) =~= gaps[0]);
            assert(name.skip(k) =~= fill(pieces, rest));
            assert forall|i: int| 0 <= i < rest.len() implies !(#[trigger] rest[i]).contains(
                '/',
            ) by {
                assert(rest[i] == gaps[i + 1]);
            }
            assert(star_matches(pattern, name.skip(k)));
        }
        if exists|k: int|
            0 <= k <= name.len() && !name.take(k).contains('/') && #[trigger] star_matches(
                pattern,
                name.skip(k),
            ) {
            let k = choose|k: int|
                0 <= k <= name.len() && !name.take(k).contains('/') && #[trigger] star_matches(
                    pattern,
                    name.skip(k),
                );
            let rest = choose|gaps: Seq<Seq<char>>|
                are_gaps(pieces, gaps) && #[trigger] fill(pieces, gaps) == name.skip(k);
            let gaps = seq![name.take(k)] + rest;
            assert(gaps.skip(1) =~= rest);
            assert(are_gaps(all, gaps));
            assert(fill(all, gaps) =~= name);
        }
    } else {
        lemma_split_after_character(c, pattern, '*');
        if star_matches(whole, name) {
            let gaps = choose|gaps: Seq<Seq<char>>|
                are_gaps(all, gaps) && #[trigger] fill(all, gaps) == name;
            lemma_fill_after_character(c, pieces, gaps);
            assert(name.skip(1) =~= fill(pieces, gaps));
            assert(are_gaps(pieces, gaps));
        }
        if name.len() > 0 && name[0] == c && star_matches(pattern, name.skip(1)) {
            let gaps = choose|gaps: Seq<Seq<char>>|
                are_gaps(pieces, gaps) && #[trigger] fill(pieces, gaps) == name.skip(1);
            lemma_fill_after_character(c, pieces, gaps);
            assert(name =~= seq![c] + name.skip(1));
            assert(are_gaps(all, gaps));
        }
    }
}

/// A character before a text goes to the first of its pieces.
proof fn lemma_split_after_character(c: char, s: Seq<char>, sep: char)
    requires
        c != sep,
    ensures
        text::split(seq![c] + s, sep) == text::split(s, sep).update(
            0,
            seq![c] + text::split(s, sep)[0],
        ),
    decreases s.len(),
{
    let whole = seq![c] + s;
    text::lemma_split_nonempty(s, sep);
    if s.len() == 0 {
        assert(whole =~= seq![c]);
        text::lemma_split_without(whole, sep);
        assert(seq![c] + Seq::<char>::empty() =~= whole);
        assert(text::split(whole, sep) =~= text::split(s, sep).update(
            0,
            seq![c] + text::split(s, sep)[0],
        ));
    } else {
        assert(whole.drop_last() =~= seq![c] + s.drop_last());
        lemma_split_after_character(c, s.drop_last(), sep);
        text::lemma_split_nonempty(s.drop_last(), sep);
        let init = text::split(s.drop_last(), sep);
        if s.last() != sep && init.len() == 1 {
            assert((seq![c] + init[0]).push(s.last()) =~= seq![c] + init[0].push(s.last()));
        }
        assert(text::split(whole, sep) =~= text::split(s, sep).update(
            0,
            seq![c] + text::split(s, sep)[0],
        ));
    }
}

proof fn lemma_fill_after_character(c: char, pieces: Seq<Seq<char>>, gaps: Seq<Seq<char>>)
    requires
        pieces.len() > 0,
    ensures
        fill(pieces.update(0, seq![c] + pieces[0]), gaps) == seq![c] + fill(pieces, gaps),
{
    let more = pieces.update(0, seq![c] + pieces[0]);
    assert(more.skip(1) =~= pieces.skip(1));
    assert(fill(more, gaps) =~= seq![c] + fill(pieces, gaps));
}

/// The path of the names one below the other.
pub open spec fn path_of(names: Seq<Seq<char>>) -> Seq<char>
    decreases names.len(),
{
    if names.len() == 0 {
        Seq::<char>::empty()
    } else {
        path_of(names.drop_last()).push('/') + names.last()
    }
}

/// A path has the names that it was made of.
pub proof fn law_path_has_its_names(names: Seq<Seq<char>>)
    requires
        forall|i: int|
            0 <= i < names.len() ==> (#[trigger] names[i]).len() > 0 && !names[i].contains('/')
                && names[i] != seq!['.'],
    ensures
        text::components(path_of(names)) == names,
    decreases names.len(),
{
    if names.len() == 0 {
        text::lemma_components_empty();
        assert(names =~= Seq::<Seq<char>>::empty());
    } else {
        let init = names.drop_last();
        assert forall|i: int| 0 <= i < init.len() implies (#[trigger] init[i]).len() > 0
            && !init[i].contains('/') && init[i] != seq!['.'] by {
            assert(init[i] == names[i]);
        }
        law_path_has_its_names(init);
        assert(names[names.len() - 1] == names.last());
        text::law_piece_is_its_own_name(names.last());
        text::lemma_components_join(path_of(init), names.last());
        assert(names =~= init + seq![names.last()]);
    }
}

/// A group that the pattern matches is visited, and so is every group on the way
/// to it, however deep it lies. The pattern is absolute and has no `?` and no
/// `[`; it has as many names as the path, and each matches the one at its place.
pub proof fn law_match_is_reached_at_any_depth(
    pattern: Seq<char>,
    path: Seq<char>,
    top: Seq<char>,
    rest: Seq<Seq<char>>,
)
    requires
        pattern.len() > 0,
        pattern[0] == '/',
        !pattern.contains('?'),
        !pattern.contains('['),
        text::components(path).len() == text::components(pattern).len(),
        forall|i: int|
            0 <= i < text::components(path).len() ==> star_matches(
                text::components(pattern)[i],
                #[trigger] text::components(path)[i],
            ),
        text::components(path) == text::components(top) + rest,
    ensures
        may_match_below(compiled(pattern), path),
        may_match_below(compiled(pattern), top),
{
    let names = text::components(path);
    let upper = text::components(top);
    assert forall|i: int| 0 <= i < upper.len() implies star_matches(
        text::components(pattern)[i],
        upper[i],
    ) by {
        assert(upper[i] == names[i]);
    }
}

/// A pattern that spells a path out reaches it and every group on the way.
pub proof fn law_spelled_path_is_reached(names: Seq<Seq<char>>, depth: int)
    requires
        names.len() > 0,
        forall|i: int|
            0 <= i < names.len() ==> (#[trigger] names[i]).len() > 0 && !names[i].contains('/')
                && !names[i].contains('*') && !names[i].contains('?') && !names[i].contains('[')
                && names[i] != seq!['.'],
        0 <= depth <= names.len(),
    ensures
        may_match_below(compiled(path_of(names)), path_of(names.take(depth))),
{
    let path = path_of(names);
    law_path_has_its_names(names);
    lemma_path_holds(names, '?');
    lemma_path_holds(names, '[');
    lemma_path_begins(names);
    assert forall|i: int| 0 <= i < names.len() implies star_matches(
        names[i],
        #[trigger] names[i],
    ) by {
        law_literal_matches_itself_only(names[i], names[i]);
    }
    let upper = names.take(depth);
    assert forall|i: int| 0 <= i < upper.len() implies (#[trigger] upper[i]).len() > 0
        && !upper[i].contains('/') && upper[i] != seq!['.'] by {
        assert(upper[i] == names[i]);
    }
    law_path_has_its_names(upper);
    assert(names =~= upper + names.skip(depth));
    law_match_is_reached_at_any_depth(path, path, path_of(upper), names.skip(depth));
}

/// A path holds, but for slashes, what its names hold.
proof fn lemma_path_holds(names: Seq<Seq<char>>, c: char)
    requires
        c != '/',
        forall|i: int| 0 <= i < names.len() ==> !(#[trigger] names[i]).contains(c),
    ensures
        !path_of(names).contains(c),
    decreases names.len(),
{
    if names.len() > 0 {
        let init = names.drop_last();
        assert forall|i: int| 0 <= i < init.len() implies !(#[trigger] init[i]).contains(c) by {
            assert(init[i] == names[i]);
        }
        lemma_path_holds(init, c);
        assert(!names[names.len() - 1].contains(c));
        let top = path_of(init);
        lemma_join_holds(top.push('/'), names.last(), c);
        assert(top.push('/') =~= top + seq!['/']);
        lemma_join_holds(top, seq!['/'], c);
    }
}

/// A path begins with a slash.
proof fn lemma_path_begins(names: Seq<Seq<char>>)
    requires
        names.len() > 0,
    ensures
        path_of(names).len() > 0,
        path_of(names)[0] == '/',
    decreases names.len(),
{
    let init = names.drop_last();
    if names.len() > 1 {
        lemma_path_begins(init);
    } else {
        assert(path_of(init) =~= Seq::<char>::empty());
    }
    assert(path_of(names)[0] == path_of(init).push('/')[0]);
}

/// Nothing is visited in vain: where the predicate of such a pattern says yes at
/// a path, there is a text such that the path that goes on with it is matched.
pub proof fn law_visit_can_lead_to_a_match(pattern: Seq<char>, path: Seq<char>) -> (rest: Seq<char>)
    requires
        pattern.len() > 0,
        pattern[0] == '/',
        !pattern.contains('?'),
        !pattern.contains('['),
        may_match_below(compiled(pattern), path),
    ensures
        ({
            let full = text::components(path.push('/') + rest);
            &&& full.len() == text::components(pattern).len()
            &&& forall|i: int|
                0 <= i < full.len() ==> star_matches(
                    text::components(pattern)[i],
                    #[trigger] full[i],
                )
        }),
{
    let segs = text::components(pattern);
    let names = text::components(path);
    let missing = segs.skip(names.len() as int);
    let rest = path_of(missing);
    text::law_names_are_names(pattern);
    assert forall|i: int| 0 <= i < missing.len() implies (#[trigger] missing[i]).len() > 0
        && !missing[i].contains('/') && missing[i] != seq!['.'] by {
        assert(missing[i] == segs[names.len() + i]);
    }
    law_path_has_its_names(missing);
    text::lemma_components_join(path, rest);
    let full = text::components(path.push('/') + rest);
    assert(full =~= names + missing);
    assert forall|i: int| 0 <= i < full.len() implies star_matches(segs[i], #[trigger] full[i]) by {
        if i < names.len() {
            assert(full[i] == names[i]);
        } else {
            assert(full[i] == missing[i - names.len()]);
            law_pattern_matches_its_own_text(segs[i]);
        }
    }
    rest
}

/// A pattern matches the name that it spells, stars and all.
pub proof fn law_pattern_matches_its_own_text(segment: Seq<char>)
    ensures
        star_matches(segment, segment),
    decreases segment.len(),
{
    law_pattern_is_read_from_the_left('*', segment, segment);
    if segment.len() == 0 {
        assert(segment =~= Seq::<char>::empty());
    } else {
        let c = segment[0];
        let rest = segment.skip(1);
        assert(segment =~= seq![c] + rest);
        law_pattern_matches_its_own_text(rest);
        law_pattern_is_read_from_the_left(c, rest, segment);
        if c == '*' {
            assert(segment.take(1) =~= seq!['*']);
            assert(!segment.take(1).contains('/'));
        }
    }
}

/// A pattern that is relative, or has a `?` or a `[`, lets the walk pass
/// everywhere.
pub proof fn law_unread_pattern_lets_all_pass(pattern: Seq<char>, path: Seq<char>)
    requires
        pattern.len() == 0 || pattern[0] != '/' || pattern.contains('?') || pattern.contains('['),
    ensures
        may_match_below(compiled(pattern), path),
{
}

/// A path lies at or below another when its names begin with those of the other.
pub proof fn law_below_means_more_names(path: Seq<char>, top: Seq<char>, more: Seq<Seq<char>>)
    ensures
        text::components(path) == text::components(top) + more ==> at_or_below(path, top),
        at_or_below(path, top) ==> text::components(path) == text::components(top)
            + text::components(path).skip(text::components(top).len() as int),
{
    let names = text::components(path);
    let upper = text::components(top);
    if names == upper + more {
        assert(names.take(upper.len() as int) =~= upper);
    }
    if at_or_below(path, top) {
        assert(names =~= names.take(upper.len() as int) + names.skip(upper.len() as int));
    }
}

} // verus!
