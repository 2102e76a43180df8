//! The header block at the head of a log file: lines of the shape
//! `Key: Value`, closed by the first empty line.

use crate::keyed::KeyedList;
use crate::text::{split_once, split_once_at};
use vstd::prelude::*;

verus! {

/// What separates a header's key from its value.
pub open spec fn header_delimiter() -> Seq<char> {
    ": "@
}

/// The key and the value that a header line stands for: what stands before and
/// after its leftmost delimiter. A line without the delimiter stands for an
/// empty value under the empty key.
pub open spec fn header_entry(line: Seq<char>) -> (Seq<char>, Seq<char>) {
    match split_once_at(line, header_delimiter()) {
        Some(entry) => entry,
        None => (Seq::empty(), Seq::empty()),
    }
}

/// The value that a block of header lines gives to `key`: that of the last
/// line with this key.
pub open spec fn value_of(block: Seq<Seq<char>>, key: Seq<char>) -> Option<Seq<char>>
    decreases block.len(),
{
    if block.len() == 0 {
        None
    } else if header_entry(block.last()).0 == key {
        Some(header_entry(block.last()).1)
    } else {
        value_of(block.drop_last(), key)
    }
}

/// The entries of a block of header lines: one for each key that some line
/// has, with the value of the last line that has it.
pub open spec fn header_map(block: Seq<Seq<char>>) -> Map<Seq<char>, Seq<char>> {
    Map::new(
        |key: Seq<char>| value_of(block, key) is Some,
        |key: Seq<char>| value_of(block, key)->0,
    )
}

/// A header block as far as it has been read: the entries so far, and whether
/// the closing empty line has come.
pub struct HeaderModel {
    pub headers: Map<Seq<char>, Seq<char>>,
    pub done: bool,
}

impl HeaderModel {
    /// The block before any line.
    pub open spec fn fresh() -> HeaderModel {
        HeaderModel { headers: Map::empty(), done: false }
    }

    /// The block after `lines`, in order.
    pub open spec fn push_all(self, lines: Seq<Seq<char>>) -> HeaderModel
        decreases lines.len(),
    {
        if lines.len() == 0 {
            self
        } else {
            self.push_all(lines.drop_last()).push(lines.last())
        }
    }

    /// How many of `lines`, offered in order, the block takes.
    pub open spec fn taken(self, lines: Seq<Seq<char>>) -> nat
        decreases lines.len(),
    {
        if lines.len() == 0 {
            0
        } else if self.push_all(lines.drop_last()).done {
            self.taken(lines.drop_last())
        } else {
            self.taken(lines.drop_last()) + 1
        }
    }

    /// The block after one more line. A closed block takes nothing; an empty
    /// line closes the block; any other line puts its entry in place of the
    /// one that its key had.
    pub open spec fn push(self, line: Seq<char>) -> HeaderModel {
        if self.done {
            self
        } else if line.len() == 0 {
            HeaderModel { done: true, ..self }
        } else {
            HeaderModel {
                headers: self.headers.insert(header_entry(line).0, header_entry(line).1),
                ..self
            }
        }
    }
}

/// Gathers the header block of one file, line by line.
#[derive(Debug)]
pub struct EmailHead {
    headers: KeyedList<String>,
    done: bool,
}

impl View for EmailHead {
    type V = HeaderModel;

    closed spec fn view(&self) -> HeaderModel {
        HeaderModel {
            headers: self.headers.as_map().map_values(|value: String| value@),
            done: self.done,
        }
    }
}

impl EmailHead {
    #[verifier::type_invariant]
    spec fn well_formed(self) -> bool {
        self.headers.wf()
    }

    /// A header block of which no line has been read.
    pub fn new() -> (head: Self)
        ensures
            head@ == HeaderModel::fresh(),
    {
        let head = EmailHead { headers: KeyedList::new(), done: false };
        assert(head@.headers =~= Map::empty());
        head
    }

    /// Offers the next line of the file to the header block. Returns whether
    /// the block took it: `false` once the block is closed, so that this line
    /// and all after it belong to the body.
    pub fn push(&mut self, item: &str) -> (accepted: bool)
        ensures
            accepted == !old(self)@.done,
            final(self)@ == old(self)@.push(item@),
    {
        proof {
            use_type_invariant(&*self);
        }
        if self.done {
            return false;
        }
        if item.is_empty() {
            self.done = true;
            return true;
        }
        let (key, value) = match split_once(item, ": ") {
            Some(entry) => entry,
            None => (String::new(), String::new()),
        };
        let mut headers = KeyedList::new();
        std::mem::swap(&mut headers, &mut self.headers);
        headers.put(key, value);
        self.headers = headers;
        assert(self@.headers =~= old(self)@.headers.insert(key@, value@));
        true
    }

    /// The value under `key`, if the block has an entry for it.
    pub fn get(&self, key: &str) -> (value: Option<&String>)
        ensures
            match value {
                Some(text) => self@.headers.contains_key(key@) && text@ == self@.headers[key@],
                None => !self@.headers.contains_key(key@),
            },
    {
        proof {
            use_type_invariant(self);
            self.headers.lemma_as_map();
        }
        let owned = key.to_owned();
        match self.headers.position(&owned) {
            Some(i) => Some(self.headers.value_at(i)),
            None => None,
        }
    }

    /// The number of entries.
    pub fn len(&self) -> (n: usize)
        ensures
            self@.headers.dom().finite(),
            n == self@.headers.dom().len(),
    {
        proof {
            use_type_invariant(self);
            self.headers.lemma_as_map();
            assert(self@.headers.dom() =~= self.headers.as_map().dom());
        }
        self.headers.len()
    }

    /// Whether the closing empty line has come.
    pub fn is_done(&self) -> (done: bool)
        ensures
            done == self@.done,
    {
        self.done
    }
}

impl Default for EmailHead {
    fn default() -> (head: Self)
        ensures
            head@ == HeaderModel::fresh(),
    {
        EmailHead::new()
    }
}

/// The key of line `i` of `block`.
pub open spec fn key_at(block: Seq<Seq<char>>, i: int) -> Seq<char> {
    header_entry(block[i]).0
}

/// A key has a value exactly where some line of the block has the key.
pub proof fn lemma_value_of_some(block: Seq<Seq<char>>, key: Seq<char>)
    ensures
        value_of(block, key) is Some <==> exists|i: int|
            0 <= i < block.len() && #[trigger] key_at(block, i) == key,
    decreases block.len(),
{
    if block.len() > 0 {
        let earlier = block.drop_last();
        let end = block.len() - 1;
        lemma_value_of_some(earlier, key);
        if key_at(block, end) == key {
        } else {
            if value_of(earlier, key) is Some {
                let i = choose|i: int| 0 <= i < earlier.len() && #[trigger] key_at(earlier, i) == key;
                assert(key_at(block, i) == key);
            }
            if exists|i: int| 0 <= i < block.len() && #[trigger] key_at(block, i) == key {
                let i = choose|i: int| 0 <= i < block.len() && #[trigger] key_at(block, i) == key;
                assert(key_at(earlier, i) == key);
            }
        }
    }
}

/// The value of a key is that of the last line that has the key.
pub proof fn lemma_value_of_last(block: Seq<Seq<char>>, key: Seq<char>, i: int)
    requires
        0 <= i < block.len(),
        key_at(block, i) == key,
        forall|j: int| i < j < block.len() ==> #[trigger] key_at(block, j) != key,
    ensures
        value_of(block, key) == Some(header_entry(block[i]).1),
    decreases block.len(),
{
    let earlier = block.drop_last();
    let end = block.len() - 1;
    if i < end {
        assert(key_at(block, end) != key);
        assert(key_at(earlier, i) == key);
        assert forall|j: int| i < j < earlier.len() implies #[trigger] key_at(earlier, j) != key by {
            assert(key_at(block, j) != key);
        }
        lemma_value_of_last(earlier, key, i);
    }
}

/// One more line puts its entry into the entries of the block before it.
pub proof fn lemma_header_map_push(block: Seq<Seq<char>>, line: Seq<char>)
    ensures
        header_map(Seq::<Seq<char>>::empty()) == Map::<Seq<char>, Seq<char>>::empty(),
        header_map(block.push(line)) == header_map(block).insert(
            header_entry(line).0,
            header_entry(line).1,
        ),
{
    assert(header_map(Seq::<Seq<char>>::empty()) =~= Map::<Seq<char>, Seq<char>>::empty());
    assert(block.push(line).drop_last() =~= block);
    assert(header_map(block.push(line)) =~= header_map(block).insert(
        header_entry(line).0,
        header_entry(line).1,
    ));
}

/// A block whose lines have pairwise different keys has one entry for each
/// line.
pub proof fn lemma_header_map_len(block: Seq<Seq<char>>)
    requires
        forall|i: int, j: int|
            0 <= i < j < block.len() ==> #[trigger] key_at(block, i) != #[trigger] key_at(block, j),
    ensures
        header_map(block).dom().finite(),
        header_map(block).dom().len() == block.len(),
    decreases block.len(),
{
    if block.len() == 0 {
        lemma_header_map_push(block, Seq::empty());
        assert(block =~= Seq::<Seq<char>>::empty());
    } else {
        let earlier = block.drop_last();
        let key = header_entry(block.last()).0;
        lemma_header_map_push(earlier, block.last());
        assert(block =~= earlier.push(block.last()));
        lemma_value_of_some(earlier, key);
        assert(!header_map(earlier).dom().contains(key)) by {
            if value_of(earlier, key) is Some {
                let i = choose|i: int| 0 <= i < earlier.len() && #[trigger] key_at(earlier, i) == key;
                assert(key_at(block, i) == key);
                assert(key_at(block, block.len() - 1) == key);
            }
        }
        assert forall|i: int, j: int| 0 <= i < j < earlier.len() implies #[trigger] key_at(
            earlier,
            i,
        ) != #[trigger] key_at(earlier, j) by {
            assert(key_at(block, i) != key_at(block, j));
        }
        lemma_header_map_len(earlier);
    }
}

/// Lines that come after a first run of lines find the block as that run
/// left it.
pub proof fn lemma_push_all_add(head: HeaderModel, first: Seq<Seq<char>>, second: Seq<Seq<char>>)
    ensures
        head.push_all(first + second) == head.push_all(first).push_all(second),
        head.taken(first + second) == head.taken(first) + head.push_all(first).taken(second),
    decreases second.len(),
{
    if second.len() == 0 {
        assert(first + second =~= first);
    } else {
        lemma_push_all_add(head, first, second.drop_last());
        assert((first + second).drop_last() =~= first + second.drop_last());
    }
}

/// A closed block takes no line and stays as it is.
pub proof fn lemma_closed_block(head: HeaderModel, lines: Seq<Seq<char>>)
    requires
        head.done,
    ensures
        head.push_all(lines) == head,
        head.taken(lines) == 0,
    decreases lines.len(),
{
    if lines.len() > 0 {
        lemma_closed_block(head, lines.drop_last());
    }
}

/// A fresh block takes every line of a run without an empty line, stays open,
/// and then holds the entries of the run.
pub proof fn lemma_open_block(block: Seq<Seq<char>>)
    requires
        forall|i: int| 0 <= i < block.len() ==> (#[trigger] block[i]).len() > 0,
    ensures
        HeaderModel::fresh().push_all(block) == (HeaderModel {
            headers: header_map(block),
            done: false,
        }),
        HeaderModel::fresh().taken(block) == block.len(),
    decreases block.len(),
{
    if block.len() == 0 {
        lemma_header_map_push(block, Seq::empty());
        assert(block =~= Seq::<Seq<char>>::empty());
    } else {
        let earlier = block.drop_last();
        lemma_open_block(earlier);
        lemma_header_map_push(earlier, block.last());
        assert(block =~= earlier.push(block.last()));
    }
}

/// A header block of non-empty lines, closed by an empty line: each of its
/// lines and the closing line is taken, no line after them is, and the block
/// then holds one entry for each key of its lines, with the value of the last
/// line that has the key.
pub proof fn lemma_header_block(block: Seq<Seq<char>>, body: Seq<Seq<char>>)
    requires
        forall|i: int| 0 <= i < block.len() ==> (#[trigger] block[i]).len() > 0,
    ensures
        HeaderModel::fresh().taken(block.push(Seq::empty()) + body) == block.len() + 1,
        HeaderModel::fresh().push_all(block.push(Seq::empty()) + body) == (HeaderModel {
            headers: header_map(block),
            done: true,
        }),
{
    let fresh = HeaderModel::fresh();
    let closed = block.push(Seq::empty());
    lemma_open_block(block);
    assert(closed.drop_last() =~= block);
    lemma_push_all_add(fresh, closed, body);
    lemma_closed_block(fresh.push_all(closed), body);
}

} // verus!
