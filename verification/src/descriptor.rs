//! What the store reads of an extent descriptor: the logical length, the
//! objects it is made from and the chunks it refers to.
//!
//! The byte format of descriptors belongs to the codec that produced them;
//! here a descriptor is its bytes together with what a decoder reads in them.

use vstd::prelude::*;

use crate::chunk::{zero_id, ChunkId};

verus! {

/// How a residual is stored.
#[derive(Debug, Clone, Copy, PartialEq, Eq)]
pub enum Residual {
    /// Inside the descriptor.
    Inline,
    /// Entropy-coded, with a model.
    RansCoded { enc_obj: ChunkId, model: ChunkId },
    /// A sequence against the base.
    BaseSequence { enc_obj: ChunkId, model: ChunkId },
}

/// How a chunk is represented.
#[derive(Debug, Clone, Copy, PartialEq, Eq)]
pub enum Form {
    /// Wholly inside the descriptor (zero, fill, sparse, periodic).
    Inline,
    /// Palette, inside the descriptor.
    Palette,
    /// Permutation, inside the descriptor.
    Permutation,
    /// One raw object.
    Raw { obj: ChunkId },
    /// Entropy-coded, with a model.
    Rans { model: ChunkId, enc_obj: ChunkId },
    /// Sequence-coded, with a model.
    SequenceRans { model: ChunkId, enc_obj: ChunkId },
    /// Sparse blocks, with a model.
    SparseBlock64 { model: ChunkId, enc_obj: ChunkId },
    /// Deep sequence, with a model.
    SequenceDeep { model: ChunkId, enc_obj: ChunkId },
    /// Sequence-coded against another chunk (zero: none).
    SequenceDict { model: ChunkId, enc_obj: ChunkId, dictionary: ChunkId },
    /// Sequence-coded against another chunk (zero: none) and a shared one.
    SequenceSharedDict {
        model: ChunkId,
        enc_obj: ChunkId,
        dictionary: ChunkId,
        shared: ChunkId,
    },
    /// A residual over another chunk.
    BaseResidual { base: ChunkId, residual: Residual },
    /// A residual over generated bytes.
    EntropyRef { residual: Residual },
    /// The same bytes as another chunk.
    ExactRef { target: ChunkId },
}

/// A decoded descriptor.
#[derive(Debug, Clone, Copy, PartialEq, Eq)]
pub struct Descriptor {
    /// Logical length in bytes.
    pub len: u64,
    /// Representation.
    pub form: Form,
}

/// Incompatible features: what a reader has to know to read the store.
#[derive(Debug, Clone, Copy, PartialEq, Eq, Structural)]
pub enum Feature {
    EntropyRef,
    Palette,
    Permutation,
    SequenceRans,
    SparseBlock64,
    SequenceDict,
    SequenceSharedDict,
    SequenceDeep,
    MutationLog,
}

/// The bit of a feature.
pub open spec fn feature_mask(f: Feature) -> u64 {
    match f {
        Feature::EntropyRef => 0x001,
        Feature::Palette => 0x002,
        Feature::Permutation => 0x004,
        Feature::SequenceRans => 0x008,
        Feature::SparseBlock64 => 0x010,
        Feature::SequenceDict => 0x020,
        Feature::SequenceSharedDict => 0x040,
        Feature::SequenceDeep => 0x080,
        Feature::MutationLog => 0x100,
    }
}

/// The feature that a representation needs.
pub open spec fn feature_of(f: Form) -> Option<Feature> {
    match f {
        Form::EntropyRef { .. } => Some(Feature::EntropyRef),
        Form::Palette => Some(Feature::Palette),
        Form::Permutation => Some(Feature::Permutation),
        Form::SequenceRans { .. } => Some(Feature::SequenceRans),
        Form::SparseBlock64 { .. } => Some(Feature::SparseBlock64),
        Form::SequenceDict { .. } => Some(Feature::SequenceDict),
        Form::SequenceSharedDict { .. } => Some(Feature::SequenceSharedDict),
        Form::SequenceDeep { .. } => Some(Feature::SequenceDeep),
        _ => None,
    }
}

/// The bits of the feature that a representation needs.
pub open spec fn mask_of(f: Form) -> u64 {
    match feature_of(f) {
        Some(x) => feature_mask(x),
        None => 0,
    }
}

/// The objects that a representation is made from.
pub open spec fn objects_of(f: Form) -> Seq<ChunkId> {
    match f {
        Form::Raw { obj } => seq![obj],
        Form::Rans { model, enc_obj } => seq![model, enc_obj],
        Form::SequenceRans { model, enc_obj } => seq![model, enc_obj],
        Form::SparseBlock64 { model, enc_obj } => seq![model, enc_obj],
        Form::SequenceDeep { model, enc_obj } => seq![model, enc_obj],
        Form::SequenceDict { model, enc_obj, .. } => seq![model, enc_obj],
        Form::SequenceSharedDict { model, enc_obj, .. } => seq![model, enc_obj],
        Form::BaseResidual { residual, .. } => residual_objects(residual),
        Form::EntropyRef { residual } => match residual {
            Residual::RansCoded { enc_obj, model } => seq![enc_obj, model],
            _ => Seq::empty(),
        },
        _ => Seq::empty(),
    }
}

/// The objects of a residual over a chunk.
pub open spec fn residual_objects(r: Residual) -> Seq<ChunkId> {
    match r {
        Residual::Inline => Seq::empty(),
        Residual::RansCoded { enc_obj, model } => seq![enc_obj, model],
        Residual::BaseSequence { enc_obj, model } => seq![enc_obj, model],
    }
}

/// The chunks that a representation refers to. A zero dictionary is none.
pub open spec fn chunks_of(f: Form) -> Seq<ChunkId> {
    match f {
        Form::ExactRef { target } => seq![target],
        Form::BaseResidual { base, .. } => seq![base],
        Form::SequenceDict { dictionary, .. } => if dictionary@ == zero_id() {
            Seq::empty()
        } else {
            seq![dictionary]
        },
        Form::SequenceSharedDict { dictionary, shared, .. } => if dictionary@ == zero_id() {
            seq![shared]
        } else {
            seq![dictionary, shared]
        },
        _ => Seq::empty(),
    }
}

impl Feature {
    /// The bit of the feature.
    pub fn mask(self) -> (r: u64)
        ensures
            r == feature_mask(self),
    {
        match self {
            Feature::EntropyRef => 0x001,
            Feature::Palette => 0x002,
            Feature::Permutation => 0x004,
            Feature::SequenceRans => 0x008,
            Feature::SparseBlock64 => 0x010,
            Feature::SequenceDict => 0x020,
            Feature::SequenceSharedDict => 0x040,
            Feature::SequenceDeep => 0x080,
            Feature::MutationLog => 0x100,
        }
    }
}

impl Descriptor {
    /// The bits of the feature that the descriptor needs.
    pub fn mask(&self) -> (r: u64)
        ensures
            r == mask_of(self.form),
    {
        match self.form {
            Form::EntropyRef { .. } => Feature::EntropyRef.mask(),
            Form::Palette => Feature::Palette.mask(),
            Form::Permutation => Feature::Permutation.mask(),
            Form::SequenceRans { .. } => Feature::SequenceRans.mask(),
            Form::SparseBlock64 { .. } => Feature::SparseBlock64.mask(),
            Form::SequenceDict { .. } => Feature::SequenceDict.mask(),
            Form::SequenceSharedDict { .. } => Feature::SequenceSharedDict.mask(),
            Form::SequenceDeep { .. } => Feature::SequenceDeep.mask(),
            _ => 0,
        }
    }

    /// Whether the descriptor is a reference to `cid` itself. Such a descriptor
    /// is good for an extent, but bound to `cid` in the chunk index it would
    /// resolve to itself for ever.
    pub fn aliases(&self, cid: &ChunkId) -> (r: bool)
        ensures
            r == self_alias(self.form, cid@),
    {
        match &self.form {
            Form::ExactRef { target } => *target == *cid,
            _ => false,
        }
    }

    /// The objects that the descriptor is made from.
    pub fn objects(&self) -> (r: Vec<ChunkId>)
        ensures
            r@ == objects_of(self.form),
    {
        let mut v: Vec<ChunkId> = Vec::new();
        match self.form {
            Form::Raw { obj } => {
                v.push(obj);
            },
            Form::Rans { model, enc_obj } => {
                v.push(model);
                v.push(enc_obj);
            },
            Form::SequenceRans { model, enc_obj } => {
                v.push(model);
                v.push(enc_obj);
            },
            Form::SparseBlock64 { model, enc_obj } => {
                v.push(model);
                v.push(enc_obj);
            },
            Form::SequenceDeep { model, enc_obj } => {
                v.push(model);
                v.push(enc_obj);
            },
            Form::SequenceDict { model, enc_obj, .. } => {
                v.push(model);
                v.push(enc_obj);
            },
            Form::SequenceSharedDict { model, enc_obj, .. } => {
                v.push(model);
                v.push(enc_obj);
            },
            Form::BaseResidual { residual, .. } => match residual {
                Residual::RansCoded { enc_obj, model } => {
                    v.push(enc_obj);
                    v.push(model);
                },
                Residual::BaseSequence { enc_obj, model } => {
                    v.push(enc_obj);
                    v.push(model);
                },
                Residual::Inline => {},
            },
            Form::EntropyRef { residual } => match residual {
                Residual::RansCoded { enc_obj, model } => {
                    v.push(enc_obj);
                    v.push(model);
                },
                _ => {},
            },
            _ => {},
        }
        assert(v@ =~= objects_of(self.form));
        v
    }

    /// The chunks that the descriptor refers to.
    pub fn chunks(&self) -> (r: Vec<ChunkId>)
        ensures
            r@ == chunks_of(self.form),
    {
        let mut v: Vec<ChunkId> = Vec::new();
        match self.form {
            Form::ExactRef { target } => {
                v.push(target);
            },
            Form::BaseResidual { base, .. } => {
                v.push(base);
            },
            Form::SequenceDict { dictionary, .. } => {
                if !dictionary.is_zero() {
                    v.push(dictionary);
                }
            },
            Form::SequenceSharedDict { dictionary, shared, .. } => {
                if !dictionary.is_zero() {
                    v.push(dictionary);
                }
                v.push(shared);
            },
            _ => {},
        }
        assert(v@ =~= chunks_of(self.form));
        v
    }
}

/// The descriptor is a reference to `cid` itself.
pub open spec fn self_alias(f: Form, cid: Seq<u8>) -> bool {
    f matches Form::ExactRef { target } && target@ == cid
}

// ---------------------------------------------------------------------------
// Decoders
// ---------------------------------------------------------------------------

/// The decoder gives `r` for these bytes.
pub open spec fn decodes_to<F: Fn(&[u8]) -> Option<Descriptor>>(
    f: F,
    b: Seq<u8>,
    r: Option<Descriptor>,
) -> bool {
    exists|s: &[u8]| s@ == b && #[trigger] f.ensures((s,), r)
}

/// The decoder accepts every input, and what it gives depends on the bytes alone.
pub open spec fn steady<F: Fn(&[u8]) -> Option<Descriptor>>(f: F) -> bool {
    &&& forall|s: &[u8]| #[trigger] f.requires((s,))
    &&& forall|b: Seq<u8>, x: Option<Descriptor>, y: Option<Descriptor>|
        #![trigger decodes_to(f, b, x), decodes_to(f, b, y)]
        decodes_to(f, b, x) && decodes_to(f, b, y) ==> x == y
}

/// What the decoder reads in these bytes.
pub open spec fn decoded<F: Fn(&[u8]) -> Option<Descriptor>>(f: F, b: Seq<u8>) -> Option<
    Descriptor,
> {
    choose|r: Option<Descriptor>| decodes_to(f, b, r)
}

/// Ask the decoder.
pub fn decode_with<F: Fn(&[u8]) -> Option<Descriptor>>(f: &F, bytes: &[u8]) -> (r: Option<
    Descriptor,
>)
    requires
        steady(*f),
    ensures
        r == decoded(*f, bytes@),
{
    let r = f(bytes);
    proof {
        assert(decodes_to(*f, bytes@, r));
        assert(decodes_to(*f, bytes@, decoded(*f, bytes@)));
    }
    r
}

} // verus!
