//! Character sequences: searching for a pattern, splitting on it and joining
//! pieces back together.
//!
//! Every string is viewed as its sequence of characters (`Seq<char>`), and all
//! positions count characters, not bytes.

use vstd::prelude::*;
use vstd::string::*;

verus! {

/// `pat` stands in `s` at position `i`.
pub open spec fn occurs_at(s: Seq<char>, pat: Seq<char>, i: int) -> bool {
    &&& 0 <= i
    &&& i + pat.len() <= s.len()
    &&& s.subrange(i, i + pat.len()) == pat
}

/// `i` is the leftmost position at which `pat` stands in `s`.
pub open spec fn is_first_match(s: Seq<char>, pat: Seq<char>, i: int) -> bool {
    &&& occurs_at(s, pat, i)
    &&& forall|j: int| 0 <= j < i ==> !occurs_at(s, pat, j)
}

/// The leftmost position at which `pat` stands in `s`, if it stands anywhere.
pub open spec fn first_match(s: Seq<char>, pat: Seq<char>) -> Option<int> {
    if exists|i: int| is_first_match(s, pat, i) {
        Some(choose|i: int| is_first_match(s, pat, i))
    } else {
        None
    }
}

/// What stands before and after the leftmost `pat` in `s`.
pub open spec fn split_once_at(s: Seq<char>, pat: Seq<char>) -> Option<(Seq<char>, Seq<char>)> {
    match first_match(s, pat) {
        Some(i) => Some((s.subrange(0, i), s.subrange(i + pat.len(), s.len() as int))),
        None => None,
    }
}

/// What stands before the leftmost `pat` in `s`; all of `s` where `pat` does
/// not occur.
pub open spec fn before_first(s: Seq<char>, pat: Seq<char>) -> Seq<char> {
    match split_once_at(s, pat) {
        Some(halves) => halves.0,
        None => s,
    }
}

/// The pieces of `s` between the occurrences of `pat`, found from left to
/// right without overlap. There is always at least one piece; an empty `pat`
/// separates nothing.
pub open spec fn pieces(s: Seq<char>, pat: Seq<char>) -> Seq<Seq<char>>
    decreases s.len(),
{
    match split_once_at(s, pat) {
        Some(halves) if pat.len() > 0 => seq![halves.0] + pieces(halves.1, pat),
        _ => seq![s],
    }
}

/// The `parts` in order, with `sep` between each two neighbours.
pub open spec fn joined(parts: Seq<Seq<char>>, sep: Seq<char>) -> Seq<char>
    decreases parts.len(),
{
    if parts.len() == 0 {
        Seq::empty()
    } else if parts.len() == 1 {
        parts[0]
    } else {
        parts[0] + sep + joined(parts.drop_first(), sep)
    }
}

/// At most one position is the leftmost match, and `first_match` names it.
pub proof fn lemma_first_match_is(s: Seq<char>, pat: Seq<char>, i: int)
    requires
        is_first_match(s, pat, i),
    ensures
        first_match(s, pat) == Some(i),
{
    let c = choose|k: int| is_first_match(s, pat, k);
    assert(is_first_match(s, pat, c));
    if c < i {
        assert(!occurs_at(s, pat, c));
    }
    if i < c {
        assert(!occurs_at(s, pat, i));
    }
}

/// Where `pat` stands at `i`, there is a leftmost match, at `i` or before it.
pub proof fn lemma_first_match_exists(s: Seq<char>, pat: Seq<char>, i: int)
    requires
        occurs_at(s, pat, i),
    ensures
        first_match(s, pat) is Some,
        first_match(s, pat)->0 <= i,
    decreases i,
{
    if exists|j: int| 0 <= j < i && occurs_at(s, pat, j) {
        let j = choose|j: int| 0 <= j < i && occurs_at(s, pat, j);
        lemma_first_match_exists(s, pat, j);
    } else {
        lemma_first_match_is(s, pat, i);
    }
}

/// A pattern stands in a suffix of `s` exactly where it stands in `s`, counted
/// from the start of the suffix.
proof fn lemma_occurs_in_suffix(s: Seq<char>, pat: Seq<char>, from: int, k: int)
    requires
        0 <= from <= s.len(),
        0 <= k,
    ensures
        occurs_at(s.subrange(from, s.len() as int), pat, k) <==> occurs_at(s, pat, from + k),
{
    let tail = s.subrange(from, s.len() as int);
    if k + pat.len() <= tail.len() {
        assert(tail.subrange(k, k + pat.len()) =~= s.subrange(from + k, from + k + pat.len()));
    }
}

/// A match that is leftmost from `from` on is the leftmost match of the suffix
/// that starts at `from`.
proof fn lemma_found_in_suffix(s: Seq<char>, pat: Seq<char>, from: int, i: int)
    requires
        0 <= from <= i,
        occurs_at(s, pat, i),
        forall|j: int| from <= j < i ==> !occurs_at(s, pat, j),
    ensures
        first_match(s.subrange(from, s.len() as int), pat) == Some(i - from),
{
    let tail = s.subrange(from, s.len() as int);
    lemma_occurs_in_suffix(s, pat, from, i - from);
    assert forall|k: int| 0 <= k < i - from implies !occurs_at(tail, pat, k) by {
        lemma_occurs_in_suffix(s, pat, from, k);
    }
    lemma_first_match_is(tail, pat, i - from);
}

/// Where `pat` stands nowhere from `from` on, the suffix that starts at `from`
/// holds no match.
proof fn lemma_absent_in_suffix(s: Seq<char>, pat: Seq<char>, from: int)
    requires
        0 <= from <= s.len(),
        forall|j: int| from <= j ==> !occurs_at(s, pat, j),
    ensures
        first_match(s.subrange(from, s.len() as int), pat) is None,
{
    let tail = s.subrange(from, s.len() as int);
    assert forall|k: int| !occurs_at(tail, pat, k) by {
        if 0 <= k {
            lemma_occurs_in_suffix(s, pat, from, k);
        }
    }
}

/// Splitting never yields nothing, and the first piece is what stands before
/// the leftmost separator.
pub proof fn lemma_pieces_first(s: Seq<char>, pat: Seq<char>)
    ensures
        pieces(s, pat).len() >= 1,
        pat.len() > 0 ==> pieces(s, pat)[0] == before_first(s, pat),
{
}

/// Joining the pieces of `s` with the separator they were split on gives `s`
/// back.
pub proof fn lemma_joined_pieces(s: Seq<char>, pat: Seq<char>)
    ensures
        joined(pieces(s, pat), pat) == s,
    decreases s.len(),
{
    match split_once_at(s, pat) {
        Some(halves) => {
            if pat.len() > 0 {
                let i = first_match(s, pat)->0;
                let rest = pieces(halves.1, pat);
                let all = seq![halves.0] + rest;
                lemma_joined_pieces(halves.1, pat);
                lemma_pieces_first(halves.1, pat);
                assert(all.drop_first() =~= rest);
                assert(joined(all, pat) == halves.0 + pat + joined(rest, pat));
                assert(s.subrange(i, i + pat.len()) == pat);
                assert(halves.0 + pat + halves.1 =~= s);
            }
        },
        None => {},
    }
}

/// Joining one more part appends the separator and the part, but for the
/// first part, which stands alone.
pub proof fn lemma_joined_push(parts: Seq<Seq<char>>, sep: Seq<char>, last: Seq<char>)
    ensures
        joined(parts.push(last), sep) == if parts.len() == 0 {
            last
        } else {
            joined(parts, sep) + sep + last
        },
    decreases parts.len(),
{
    let longer = parts.push(last);
    if parts.len() == 0 {
    } else if parts.len() == 1 {
        assert(longer.drop_first() =~= seq![last]);
        assert(joined(seq![last], sep) == last);
        assert(joined(longer, sep) == longer[0] + sep + joined(longer.drop_first(), sep));
    } else {
        assert(joined(longer, sep) == longer[0] + sep + joined(longer.drop_first(), sep));
        lemma_joined_push(parts.drop_first(), sep, last);
        assert(parts.push(last).drop_first() =~= parts.drop_first().push(last));
        assert(parts[0] + sep + (joined(parts.drop_first(), sep) + sep + last)
            =~= parts[0] + sep + joined(parts.drop_first(), sep) + sep + last);
    }
}

/// The characters of `s`, in order.
pub fn chars_of(s: &str) -> (out: Vec<char>)
    ensures
        out@ == s@,
{
    let mut out: Vec<char> = Vec::new();
    for c in it: s.chars()
        invariant
            it.seq() == s@,
            out@ =~= it.seq().take(it.index()),
    {
        out.push(c);
    }
    out
}

/// Whether `pat` stands in `hay` at position `i`.
fn stands_at(hay: &Vec<char>, pat: &Vec<char>, i: usize) -> (found: bool)
    requires
        i + pat.len() <= hay.len(),
    ensures
        found == occurs_at(hay@, pat@, i as int),
{
    let mut k: usize = 0;
    while k < pat.len()
        invariant
            k <= pat.len(),
            i + pat.len() <= hay.len(),
            forall|j: int| 0 <= j < k ==> hay@[i + j] == pat@[j],
        decreases pat.len() - k,
    {
        if hay[i + k] != pat[k] {
            assert(hay@.subrange(i as int, i + pat.len())[k as int] != pat@[k as int]);
            return false;
        }
        k += 1;
    }
    assert(hay@.subrange(i as int, i + pat.len()) =~= pat@);
    true
}

/// The leftmost position at or after `from` at which `pat` stands in `hay`.
fn find_from(hay: &Vec<char>, pat: &Vec<char>, from: usize) -> (found: Option<usize>)
    requires
        from <= hay.len(),
    ensures
        match found {
            Some(i) => {
                &&& from <= i
                &&& occurs_at(hay@, pat@, i as int)
                &&& forall|j: int| from <= j < i ==> !occurs_at(hay@, pat@, j)
            },
            None => forall|j: int| from <= j ==> !occurs_at(hay@, pat@, j),
        },
{
    let mut i: usize = from;
    while hay.len() - i >= pat.len()
        invariant
            from <= i <= hay.len(),
            forall|j: int| from <= j < i ==> !occurs_at(hay@, pat@, j),
        decreases hay.len() - i,
    {
        if stands_at(hay, pat, i) {
            return Some(i);
        }
        assert(pat@.len() > 0) by {
            if pat@.len() == 0 {
                assert(hay@.subrange(i as int, i + pat@.len()) =~= pat@);
            }
        }
        i += 1;
    }
    None
}

/// The position, in characters, of the leftmost `pat` in `s`.
pub fn find(s: &str, pat: &str) -> (found: Option<usize>)
    ensures
        match found {
            Some(i) => first_match(s@, pat@) == Some(i as int),
            None => first_match(s@, pat@) is None,
        },
{
    let hay = chars_of(s);
    let needle = chars_of(pat);
    let found = find_from(&hay, &needle, 0);
    proof {
        assert(s@.subrange(0, s@.len() as int) =~= s@);
        match found {
            Some(i) => lemma_found_in_suffix(s@, pat@, 0, i as int),
            None => lemma_absent_in_suffix(s@, pat@, 0),
        }
    }
    found
}

/// Cuts `s` at its leftmost `pat`: what stands before it and what stands
/// after it. `None` where `pat` does not occur.
pub fn split_once(s: &str, pat: &str) -> (halves: Option<(String, String)>)
    ensures
        match halves {
            Some(h) => split_once_at(s@, pat@) == Some((h.0@, h.1@)),
            None => split_once_at(s@, pat@) is None,
        },
{
    let hay = chars_of(s);
    let needle = chars_of(pat);
    let found = find_from(&hay, &needle, 0);
    proof {
        assert(s@.subrange(0, s@.len() as int) =~= s@);
        match found {
            Some(i) => lemma_found_in_suffix(s@, pat@, 0, i as int),
            None => lemma_absent_in_suffix(s@, pat@, 0),
        }
    }
    match found {
        Some(i) => {
            let end: usize = hay.len();
            let head = s.substring_char(0, i).to_owned();
            let tail = s.substring_char(i + needle.len(), end).to_owned();
            Some((head, tail))
        },
        None => None,
    }
}

/// Splits `s` on every `pat`, from left to right. An empty `pat` separates
/// nothing, so that `s` comes back as the one piece.
pub fn split(s: &str, pat: &str) -> (parts: Vec<String>)
    ensures
        parts.deep_view() == pieces(s@, pat@),
{
    let hay = chars_of(s);
    let needle = chars_of(pat);
    let mut parts: Vec<String> = Vec::new();
    if needle.len() == 0 {
        parts.push(s.to_owned());
        assert(parts.deep_view() =~= seq![s@]);
        return parts;
    }
    let mut start: usize = 0;
    assert(s@.subrange(0, s@.len() as int) =~= s@);
    assert(parts.deep_view() =~= Seq::<Seq<char>>::empty());
    loop
        invariant_except_break
            hay@ == s@,
            needle@ == pat@,
            needle.len() > 0,
            start <= hay.len(),
            pieces(s@, pat@) == parts.deep_view() + pieces(
                s@.subrange(start as int, s@.len() as int),
                pat@,
            ),
        ensures
            parts.deep_view() == pieces(s@, pat@),
        decreases hay.len() - start,
    {
        let ghost rest = s@.subrange(start as int, s@.len() as int);
        let ghost before = parts.deep_view();
        match find_from(&hay, &needle, start) {
            Some(i) => {
                let piece = s.substring_char(start, i).to_owned();
                let next: usize = i + needle.len();
                proof {
                    lemma_found_in_suffix(s@, pat@, start as int, i as int);
                    assert(rest.subrange(0, i - start) =~= piece@);
                    assert(rest.subrange(i - start + pat@.len(), rest.len() as int)
                        =~= s@.subrange(next as int, s@.len() as int));
                }
                parts.push(piece);
                assert(parts.deep_view() =~= before + seq![piece@]);
                start = next;
            },
            None => {
                let piece = s.substring_char(start, hay.len()).to_owned();
                proof {
                    lemma_absent_in_suffix(s@, pat@, start as int);
                }
                parts.push(piece);
                assert(parts.deep_view() =~= before + seq![rest]);
                break;
            },
        }
    }
    parts
}

/// Joins `parts` with `sep` between each two neighbours.
pub fn join(parts: &Vec<String>, sep: &str) -> (out: String)
    ensures
        out@ == joined(parts.deep_view(), sep@),
{
    let mut out = String::new();
    let mut i: usize = 0;
    while i < parts.len()
        invariant
            i <= parts.len(),
            out@ == joined(parts.deep_view().take(i as int), sep@),
        decreases parts.len() - i,
    {
        proof {
            lemma_joined_push(parts.deep_view().take(i as int), sep@, parts[i as int]@);
            assert(parts.deep_view().take(i as int).push(parts[i as int]@)
                =~= parts.deep_view().take(i + 1));
        }
        if i > 0 {
            out.append(sep);
        }
        out.append(parts[i].as_str());
        i += 1;
    }
    assert(parts.deep_view().take(i as int) =~= parts.deep_view());
    out
}

} // verus!
