//! A named root tag, as it stands at the top of an NBT document.
use crate::nbt::codec::string_err;
use crate::nbt::compound_tag::CompoundTag;
use crate::nbt::error::{NbtError, NbtErrorKind};
use crate::nbt::tag::{NbtValue, Tag};
use vstd::prelude::*;
use crate::text::decimal_string;

verus! {

/// A root tag and its name. The name is at most 32767 UTF-8 bytes long.
#[derive(Debug)]
pub struct TreeRoot {
    name: String,
    root: Tag,
}

impl View for TreeRoot {
    type V = (Seq<char>, NbtValue);

    open spec fn view(&self) -> (Seq<char>, NbtValue) {
        (self.name(), self.tag()@)
    }
}

impl TreeRoot {
    /// The name.
    pub closed spec fn name(&self) -> Seq<char> {
        self.name@
    }

    /// The root tag.
    pub closed spec fn tag(&self) -> Tag {
        self.root
    }

    /// The name may be written.
    pub open spec fn wf(&self) -> bool {
        string_err(self.name()) is None
    }

    /// A root of the given name and tag; a name longer than a string may be is refused.
    pub fn new(name: String, root: Tag) -> (r: Result<TreeRoot, NbtError>)
        ensures
            string_err(name@) is Some ==> (r matches Err(e) && e.kind()
                == NbtErrorKind::InvalidTagValue),
            string_err(name@) is None ==> (r matches Ok(t) && t.name() == name@ && t.tag() == root
                && t.wf()),
    {
        let len = name.as_str().as_bytes().len();
        if len > 0x7fff {
            let mut message = "Root tag name must be at most 32767 bytes, but got ".to_owned();
            message.append(decimal_string(len as u64).as_str());
            message.append(" bytes");
            return Err(NbtError::new_invalid_tag_value(message.as_str()));
        }
        Ok(TreeRoot { name, root })
    }

    pub fn get_name(&self) -> (r: &str)
        ensures
            r@ == self.name(),
    {
        self.name.as_str()
    }

    pub fn get_tag(&self) -> (r: &Tag)
        ensures
            *r == self.tag(),
    {
        &self.root
    }

    /// The root tag, to change in place; the name stays.
    pub fn get_tag_mut(&mut self) -> (r: &mut Tag)
        ensures
            *r == old(self).tag(),
            final(self).tag() == *final(r),
            final(self).name() == old(self).name(),
    {
        &mut self.root
    }

    /// The root tag as a compound, to change in place, or an error if it is not one.
    pub fn must_get_compound_tag_mut(&mut self) -> (r: Result<&mut CompoundTag, NbtError>)
        ensures
            final(self).name() == old(self).name(),
            old(self).tag() is Compound ==> r is Ok && *r.unwrap() == old(self).tag()->Compound_0
                && final(self).tag() == Tag::Compound(*final(r.unwrap())),
            !(old(self).tag() is Compound) ==> (r matches Err(e) && e.kind()
                == NbtErrorKind::UnexpectedTagType) && final(self).tag() == old(self).tag(),
    {
        match &mut self.root {
            Tag::Compound(c) => Ok(c),
            _ => Err(NbtError::new_unexpected_tag_type("Root tag is not a CompoundTag")),
        }
    }

    /// The root tag as a compound, or an error if it is not one.
    pub fn must_get_compound_tag(&self) -> (r: Result<&CompoundTag, NbtError>)
        ensures
            match self.tag() {
                Tag::Compound(c) => r == Ok::<&CompoundTag, NbtError>(&c),
                _ => r matches Err(e) && e.kind() == NbtErrorKind::UnexpectedTagType,
            },
    {
        match &self.root {
            Tag::Compound(c) => Ok(c),
            _ => Err(NbtError::new_unexpected_tag_type("Root tag is not a CompoundTag")),
        }
    }
}

} // verus!
