//! Image clips.
use vstd::prelude::*;
use crate::rfx::propertyset::{OfxPropertySet, PropertyValueView};

verus! {

/// An image clip, described by its properties.
#[derive(Debug, Clone)]
pub struct OfxImageClip {
    pub props: Box<OfxPropertySet>,
}

impl OfxImageClip {
    /// A clip with no properties.
    pub fn new() -> (r: Self)
        ensures
            r.props.wf(),
            r.props@ == Map::<Seq<u8>, Seq<PropertyValueView>>::empty(),
    {
        OfxImageClip { props: OfxPropertySet::new() }
    }
}

} // verus!
