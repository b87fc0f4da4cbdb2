//! Lists of tags of one type.
use crate::nbt::error::{NbtError, NbtErrorKind};
use crate::nbt::tag::{lemma_tags_view, tag_view, tags_view, NbtValue, Tag, TagType};
use vstd::prelude::*;

verus! {

/// A list of tags that all have the list's type.
///
/// An empty list of type `End` takes the type of the first tag added to it.
#[derive(Debug)]
pub struct ListTag {
    value: Vec<Tag>,
    tag_type: TagType,
}

impl View for ListTag {
    type V = NbtValue;

    open spec fn view(&self) -> NbtValue {
        NbtValue::List(self.ty(), tags_view(self.elems()))
    }
}

impl ListTag {
    /// The tags of the list.
    pub closed spec fn elems(&self) -> Seq<Tag> {
        self.value@
    }

    /// The tags of a list lie below it.
    pub proof fn lemma_elems_decreases(&self)
        ensures
            decreases_to!(*self => self.elems()),
    {
        assert(decreases_to!(self.value => self.value@));
    }

    /// The list's type.
    pub closed spec fn ty(&self) -> TagType {
        self.tag_type
    }

    /// Every tag in the list has the list's type.
    pub open spec fn wf(&self) -> bool {
        forall|i: int| 0 <= i < self.elems().len() ==> #[trigger] self.elems()[i]@.tag_type() == self.ty()
    }

    /// Whether a tag of type `t` may join the list.
    pub open spec fn accepts(&self, t: TagType) -> bool {
        (self.elems().len() == 0 && self.ty() == TagType::End) || t == self.ty()
    }

    /// The list's type once a tag of type `t` has been accepted.
    pub open spec fn type_after(&self, t: TagType) -> TagType {
        if self.elems().len() == 0 && self.ty() == TagType::End {
            t
        } else {
            self.ty()
        }
    }

    pub fn new(tag_type: TagType) -> (r: Self)
        ensures
            r.ty() == tag_type,
            r.elems() == Seq::<Tag>::empty(),
            r.wf(),
    {
        ListTag { value: Vec::new(), tag_type }
    }

    /// A list of the given type holding the given tags.
    pub(crate) fn from_parts(tag_type: TagType, value: Vec<Tag>) -> (r: Self)
        ensures
            r.ty() == tag_type,
            r.elems() == value@,
    {
        ListTag { value, tag_type }
    }

    pub fn get_tag_type(&self) -> (r: TagType)
        ensures
            r == self.ty(),
    {
        self.tag_type
    }

    pub fn len(&self) -> (r: usize)
        ensures
            r == self.elems().len(),
    {
        self.value.len()
    }

    pub fn is_empty(&self) -> (r: bool)
        ensures
            r == (self.elems().len() == 0),
    {
        self.value.len() == 0
    }

    /// Checks that a tag of type `t` may join the list, and takes that type if the list
    /// is an empty list of `End`.
    fn check_tag_type(&mut self, t: TagType) -> (r: Result<(), NbtError>)
        ensures
            final(self).elems() == old(self).elems(),
            old(self).accepts(t) ==> r is Ok && final(self).ty() == old(self).type_after(t),
            !old(self).accepts(t) ==> (r matches Err(e) && e.kind()
                == NbtErrorKind::UnexpectedTagType) && final(self).ty() == old(self).ty(),
            old(self).ty() != TagType::End ==> final(self).ty() == old(self).ty() && (r is Ok
                <==> t == old(self).ty()),
    {
        if self.value.len() == 0 && self.tag_type == TagType::End {
            self.tag_type = t;
            Ok(())
        } else if t == self.tag_type {
            Ok(())
        } else {
            Err(NbtError::new_unexpected_tag_type("Invalid tag type assigned to ListTag"))
        }
    }

    /// Appends a tag of the list's type.
    pub fn push(&mut self, tag: Tag) -> (r: Result<(), NbtError>)
        ensures
            old(self).accepts(tag@.tag_type()) ==> r is Ok && final(self).elems() == old(self).elems().push(tag) && final(self).ty() == old(self).type_after(tag@.tag_type()),
            !old(self).accepts(tag@.tag_type()) ==> (r matches Err(e) && e.kind()
                == NbtErrorKind::UnexpectedTagType) && final(self).elems() == old(self).elems()
                && final(self).ty() == old(self).ty(),
            old(self).ty() != TagType::End ==> final(self).ty() == old(self).ty() && (tag@.tag_type()
                != old(self).ty() ==> (r matches Err(e) && e.kind() == NbtErrorKind::UnexpectedTagType)
                && final(self).elems() == old(self).elems()),
            old(self).wf() ==> final(self).wf(),
    {
        let t = tag.get_type();
        self.check_tag_type(t)?;
        self.value.push(tag);
        Ok(())
    }

    /// Removes and returns the last tag.
    pub fn pop(&mut self) -> (r: Option<Tag>)
        ensures
            final(self).ty() == old(self).ty(),
            old(self).elems().len() > 0 ==> r == Some(old(self).elems().last()) && final(self).elems() == old(self).elems().drop_last(),
            old(self).elems().len() == 0 ==> r is None && final(self).elems() == old(self).elems(),
            old(self).wf() ==> final(self).wf(),
    {
        self.value.pop()
    }

    /// Inserts a tag at `index`, moving later tags one place on. The type is checked first.
    pub fn insert(&mut self, index: usize, tag: Tag) -> (r: Result<(), NbtError>)
        ensures
            !old(self).accepts(tag@.tag_type()) ==> (r matches Err(e) && e.kind()
                == NbtErrorKind::UnexpectedTagType) && final(self).elems() == old(self).elems()
                && final(self).ty() == old(self).ty(),
            old(self).accepts(tag@.tag_type()) ==> final(self).ty() == old(self).type_after(tag@.tag_type()),
            old(self).accepts(tag@.tag_type()) && index > old(self).elems().len() ==> (r matches Err(e) && e.kind() == NbtErrorKind::InvalidOperation) && final(self).elems() == old(self).elems(),
            old(self).accepts(tag@.tag_type()) && index <= old(self).elems().len() ==> r is Ok
                && final(self).elems() == old(self).elems().insert(index as int, tag),
            old(self).ty() != TagType::End ==> final(self).ty() == old(self).ty() && (tag@.tag_type()
                != old(self).ty() ==> (r matches Err(e) && e.kind() == NbtErrorKind::UnexpectedTagType)
                && final(self).elems() == old(self).elems()),
            old(self).wf() ==> final(self).wf(),
    {
        let t = tag.get_type();
        self.check_tag_type(t)?;
        if index > self.value.len() {
            Err(NbtError::new_invalid_operation("Index out of bounds for ListTag insert"))
        } else {
            self.value.insert(index, tag);
            proof {
                assert forall|i: int| 0 <= i < self.elems().len() && old(self).wf() implies #[trigger] self.elems()[i]@.tag_type()
                    == self.ty() by {
                    if i > index {
                        assert(self.elems()[i] == old(self).elems()[i - 1]);
                    }
                }
            }
            Ok(())
        }
    }

    /// Removes and returns the tag at `index`, if there is one.
    pub fn remove(&mut self, index: usize) -> (r: Option<Tag>)
        ensures
            final(self).ty() == old(self).ty(),
            index < old(self).elems().len() ==> r == Some(old(self).elems()[index as int]) && final(self).elems() == old(self).elems().remove(index as int),
            index >= old(self).elems().len() ==> r is None && final(self).elems() == old(self).elems(),
            old(self).wf() ==> final(self).wf(),
    {
        if index < self.value.len() {
            let t = self.value.remove(index);
            proof {
                assert forall|i: int| 0 <= i < self.elems().len() && old(self).wf() implies #[trigger] self.elems()[i]@.tag_type()
                    == self.ty() by {
                    if i >= index {
                        assert(self.elems()[i] == old(self).elems()[i + 1]);
                    }
                }
            }
            Some(t)
        } else {
            None
        }
    }

    /// The tag at `index`, if there is one.
    pub fn get(&self, index: usize) -> (r: Option<&Tag>)
        ensures
            index < self.elems().len() ==> r == Some(&self.elems()[index as int]),
            index >= self.elems().len() ==> r is None,
    {
        if index < self.value.len() {
            Some(&self.value[index])
        } else {
            None
        }
    }

    /// The tag at `index`, to change in place, if there is one. A change of its type is
    /// not checked against the list's.
    pub fn get_mut(&mut self, index: usize) -> (r: Option<&mut Tag>)
        ensures
            index >= old(self).elems().len() ==> r is None && final(self).elems() == old(self).elems(),
            index < old(self).elems().len() ==> r is Some && *r.unwrap() == old(self).elems()[index as int]
                && final(self).elems() == old(self).elems().update(index as int, *final(r.unwrap())),
            final(self).ty() == old(self).ty(),
    {
        if index < self.value.len() {
            Some(&mut self.value[index])
        } else {
            None
        }
    }

    /// Replaces the tag at `index`. The type is checked first.
    pub fn set(&mut self, index: usize, tag: Tag) -> (r: Result<(), NbtError>)
        ensures
            !old(self).accepts(tag@.tag_type()) ==> (r matches Err(e) && e.kind()
                == NbtErrorKind::UnexpectedTagType) && final(self).elems() == old(self).elems()
                && final(self).ty() == old(self).ty(),
            old(self).accepts(tag@.tag_type()) ==> final(self).ty() == old(self).type_after(tag@.tag_type()),
            old(self).accepts(tag@.tag_type()) && index >= old(self).elems().len() ==> (r matches Err(e) && e.kind() == NbtErrorKind::InvalidOperation) && final(self).elems() == old(self).elems(),
            old(self).accepts(tag@.tag_type()) && index < old(self).elems().len() ==> r is Ok
                && final(self).elems() == old(self).elems().update(index as int, tag),
            old(self).ty() != TagType::End ==> final(self).ty() == old(self).ty() && (tag@.tag_type()
                != old(self).ty() ==> (r matches Err(e) && e.kind() == NbtErrorKind::UnexpectedTagType)
                && final(self).elems() == old(self).elems()),
            old(self).wf() ==> final(self).wf(),
    {
        let t = tag.get_type();
        self.check_tag_type(t)?;
        if index >= self.value.len() {
            Err(NbtError::new_invalid_operation("Index out of bounds for ListTag set"))
        } else {
            self.value[index] = tag;
            Ok(())
        }
    }

    /// A deep copy.
    pub fn clone_list(&self) -> (r: ListTag)
        ensures
            r@ == self@,
            r.elems().len() == self.elems().len(),
            forall|i: int| 0 <= i < self.elems().len() ==> #[trigger] tag_view(r.elems()[i]) == tag_view(self.elems()[i]),
        decreases self,
    {
        let mut out: Vec<Tag> = Vec::new();
        let mut i: usize = 0;
        while i < self.value.len()
            invariant
                i <= self.elems().len(),
                out@.len() == i,
                forall|j: int| 0 <= j < i ==> #[trigger] tag_view(out@[j]) == tag_view(self.elems()[j]),
            decreases self.elems().len() - i,
        {
            proof {
                self.lemma_elems_decreases();
                assert(decreases_to!(self.elems() => self.elems()[i as int]));
            }
            let tag = self.value[i].clone_tag();
            out.push(tag);
            i = i + 1;
        }
        let r = ListTag { value: out, tag_type: self.tag_type };
        proof {
            lemma_tags_view(r.elems());
            lemma_tags_view(self.elems());
            assert(tags_view(r.elems()) =~= tags_view(self.elems()));
        }
        r
    }

    /// The tags, in order.
    pub fn iter(&self) -> (r: &[Tag])
        ensures
            r@ == self.elems(),
    {
        self.value.as_slice()
    }

    /// The tags, in order, to change in place. A change of a tag's type is not checked
    /// against the list's.
    pub fn iter_mut(&mut self) -> (r: &mut [Tag])
        ensures
            r@ == old(self).elems(),
            final(self).elems() == final(r)@,
            final(self).ty() == old(self).ty(),
    {
        self.value.as_mut_slice()
    }
}

/// A list whose type is not `End` keeps its type: it takes a tag of its own type and
/// refuses any other; an empty list of `End` takes any tag, and with it that tag's type.
pub proof fn law_list_type(l: ListTag, t: TagType)
    ensures
        l.ty() != TagType::End ==> (l.accepts(t) <==> t == l.ty()) && l.type_after(t) == l.ty(),
        l.ty() == TagType::End && l.elems().len() == 0 ==> l.accepts(t) && l.type_after(t) == t,
{
}

} // verus!
