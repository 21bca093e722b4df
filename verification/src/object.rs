//! The attribute data of a decoded DICOM object, as far as a directory needs
//! it: elements found by tag, values decoded as character strings, as
//! unsigned numbers or as a sequence of items, and for each item the place
//! where it began in the encoded stream.

use vstd::prelude::*;
use crate::tags::Tag;
use crate::text::{copy_strings, join, join_strings, texts};

verus! {

/// The value of one element.
#[derive(Debug)]
pub enum Value {
    /// Character strings: the components of the value, in stored order,
    /// each as it was decoded, without the padding of its encoding.
    Strings(Vec<String>),
    /// Unsigned numbers of up to 32 bits, in stored order.
    Unsigned(Vec<u32>),
    /// A sequence of items.
    Sequence(Vec<Item>),
    /// Any other value: one that decodes neither as text, as unsigned
    /// numbers nor as items.
    Other,
}

/// One attribute: a tag and its value.
#[derive(Debug)]
pub struct Element {
    pub tag: Tag,
    pub value: Value,
}

/// A set of attributes, in stored order.
#[derive(Debug)]
pub struct DataSet {
    pub elements: Vec<Element>,
}

/// One item of a sequence: its attributes, and the byte offset at which the
/// item began in the encoded stream.
#[derive(Debug)]
pub struct Item {
    pub offset: u32,
    pub attributes: DataSet,
}

impl Value {
    /// The components of a character-string value.
    pub open spec fn components(&self) -> Option<Seq<Seq<char>>> {
        match self {
            Value::Strings(strings) => Some(texts(strings@)),
            _ => None,
        }
    }

    /// A character-string value as one string: its components joined by
    /// backslashes.
    pub open spec fn text(&self) -> Option<Seq<char>> {
        match self.components() {
            Some(parts) => Some(join(parts)),
            None => None,
        }
    }

    /// The first number of a numeric value.
    pub open spec fn number(&self) -> Option<u32> {
        match self {
            Value::Unsigned(numbers) => if numbers@.len() > 0 {
                Some(numbers@[0])
            } else {
                None
            },
            _ => None,
        }
    }

    /// The items of a sequence value.
    pub open spec fn sequence(&self) -> Option<Seq<Item>> {
        match self {
            Value::Sequence(items) => Some(items@),
            _ => None,
        }
    }

    /// The components of the value, where it holds character strings.
    pub fn strings(&self) -> (r: Option<&Vec<String>>)
        ensures
            match r {
                Some(strings) => self.components() == Some(texts(strings@)),
                None => self.components() is None,
            },
    {
        match self {
            Value::Strings(strings) => Some(strings),
            _ => None,
        }
    }

    /// The value as one string, where it holds character strings: the
    /// components joined by backslashes.
    pub fn to_str(&self) -> (r: Option<String>)
        ensures
            match r {
                Some(s) => self.text() == Some(s@),
                None => self.text() is None,
            },
    {
        match self {
            Value::Strings(strings) => Some(join_strings(strings)),
            _ => None,
        }
    }

    /// The first number of the value, where it holds unsigned numbers.
    pub fn to_u32(&self) -> (r: Option<u32>)
        ensures
            r == self.number(),
    {
        match self {
            Value::Unsigned(numbers) => if numbers.len() > 0 {
                Some(numbers[0])
            } else {
                None
            },
            _ => None,
        }
    }

    /// The items of the value, where it is a sequence.
    pub fn items(&self) -> (r: Option<&Vec<Item>>)
        ensures
            match r {
                Some(items) => self.sequence() == Some(items@),
                None => self.sequence() is None,
            },
    {
        match self {
            Value::Sequence(items) => Some(items),
            _ => None,
        }
    }
}

impl DataSet {
    /// Whether position `i` holds the first element that carries `tag`.
    pub open spec fn is_first(&self, tag: Tag, i: int) -> bool {
        &&& 0 <= i < self.elements@.len()
        &&& self.elements@[i].tag == tag
        &&& forall|j: int| 0 <= j < i ==> (#[trigger] self.elements@[j]).tag != tag
    }

    /// The first element that carries `tag`, if there is one.
    pub open spec fn lookup(&self, tag: Tag) -> Option<Element> {
        if exists|i: int| self.is_first(tag, i) {
            Some(self.elements@[choose|i: int| self.is_first(tag, i)])
        } else {
            None
        }
    }

    /// Whether some element carries `tag`.
    pub open spec fn carries(&self, tag: Tag) -> bool {
        exists|i: int| 0 <= i < self.elements@.len() && (#[trigger] self.elements@[i]).tag == tag
    }

    /// The string value of the element that carries `tag`: absent where there
    /// is no such element or its value is no character string.
    pub open spec fn text_of(&self, tag: Tag) -> Option<Seq<char>> {
        match self.lookup(tag) {
            Some(element) => element.value.text(),
            None => None,
        }
    }

    /// The string components of the element that carries `tag`: none where
    /// there is no such element or its value is no character string.
    pub open spec fn components_of(&self, tag: Tag) -> Seq<Seq<char>> {
        match self.lookup(tag) {
            Some(element) => match element.value.components() {
                Some(parts) => parts,
                None => Seq::empty(),
            },
            None => Seq::empty(),
        }
    }

    /// The number that the element carrying `tag` holds: absent where there is
    /// no such element or its value holds no number.
    pub open spec fn number_of(&self, tag: Tag) -> Option<u32> {
        match self.lookup(tag) {
            Some(element) => element.value.number(),
            None => None,
        }
    }

    /// Looks an element up by its tag. Of several elements with one tag the
    /// first is found.
    pub fn element(&self, tag: Tag) -> (r: Option<&Element>)
        ensures
            match r {
                Some(element) => self.lookup(tag) == Some(*element),
                None => self.lookup(tag) is None,
            },
    {
        let mut i: usize = 0;
        while i < self.elements.len()
            invariant
                i <= self.elements@.len(),
                forall|j: int| 0 <= j < i ==> (#[trigger] self.elements@[j]).tag != tag,
            decreases self.elements.len() - i,
        {
            if self.elements[i].tag == tag {
                assert(self.is_first(tag, i as int));
                let ghost k = choose|k: int| self.is_first(tag, k);
                assert(k == i) by {
                    if k < i {
                        assert(self.elements@[k].tag != tag);
                    } else if i < k {
                        assert(self.elements@[i as int].tag != tag);
                    }
                }
                return Some(&self.elements[i]);
            }
            i += 1;
        }
        assert forall|k: int| !self.is_first(tag, k) by {
            if self.is_first(tag, k) {
                assert(self.elements@[k].tag != tag);
            }
        }
        None
    }

    /// The string value of the element that carries `tag`.
    pub fn string_of(&self, tag: Tag) -> (r: Option<String>)
        ensures
            match r {
                Some(s) => self.text_of(tag) == Some(s@),
                None => self.text_of(tag) is None,
            },
    {
        match self.element(tag) {
            Some(element) => element.value.to_str(),
            None => None,
        }
    }

    /// A copy of the string components of the element that carries `tag`.
    pub fn strings_of(&self, tag: Tag) -> (r: Vec<String>)
        ensures
            texts(r@) == self.components_of(tag),
    {
        match self.element(tag) {
            Some(element) => match element.value.strings() {
                Some(strings) => copy_strings(strings),
                None => {
                    let none: Vec<String> = Vec::new();
                    assert(texts(none@) =~= Seq::<Seq<char>>::empty());
                    none
                },
            },
            None => {
                let none: Vec<String> = Vec::new();
                assert(texts(none@) =~= Seq::<Seq<char>>::empty());
                none
            },
        }
    }

    /// The number that the element carrying `tag` holds.
    pub fn u32_of(&self, tag: Tag) -> (r: Option<u32>)
        ensures
            r == self.number_of(tag),
    {
        match self.element(tag) {
            Some(element) => element.value.to_u32(),
            None => None,
        }
    }
}

/// Among the elements up to position `i` that carry the tag, one is the first.
proof fn lemma_first(set: DataSet, tag: Tag, i: int)
    requires
        0 <= i < set.elements@.len(),
        set.elements@[i].tag == tag,
    ensures
        exists|k: int| set.is_first(tag, k),
    decreases i,
{
    if exists|j: int| 0 <= j < i && (#[trigger] set.elements@[j]).tag == tag {
        let j = choose|j: int| 0 <= j < i && (#[trigger] set.elements@[j]).tag == tag;
        lemma_first(set, tag, j);
    } else {
        assert(set.is_first(tag, i));
    }
}

/// An element is found by its tag exactly where some element carries the
/// tag, and the element found carries it.
pub proof fn lemma_lookup(set: DataSet, tag: Tag)
    ensures
        set.lookup(tag) is Some <==> set.carries(tag),
        set.lookup(tag) matches Some(element) ==> element.tag == tag,
{
    if set.carries(tag) {
        let i = choose|i: int|
            0 <= i < set.elements@.len() && (#[trigger] set.elements@[i]).tag == tag;
        lemma_first(set, tag, i);
    }
    if set.lookup(tag) is Some {
        let k = choose|k: int| set.is_first(tag, k);
        assert(set.elements@[k].tag == tag);
    }
}

} // verus!
