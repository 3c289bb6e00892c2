//! Laws of representations: what each is made from and refers to, which features it needs, and
//! what a read of it depends on.

use vstd::prelude::*;

use crate::chunk::zero_id;
use crate::descriptor::{chunks_of, feature_of, mask_of, objects_of, Descriptor, Feature, Form,
    Residual};
use crate::epoch::Epoch;
use crate::fs::Listing;
use crate::read_deps::{among, leads_to, made_from, near, needed};

verus! {

/// A representation is made from every object that it names, and from no other.
pub proof fn forms_name_their_objects(f: Form, id: Seq<u8>)
    ensures
        among(objects_of(f), id) <==> match f {
            Form::Raw { obj } => id == obj@,
            Form::Rans { model, enc_obj } => id == model@ || id == enc_obj@,
            Form::SequenceRans { model, enc_obj } => id == model@ || id == enc_obj@,
            Form::SparseBlock64 { model, enc_obj } => id == model@ || id == enc_obj@,
            Form::SequenceDeep { model, enc_obj } => id == model@ || id == enc_obj@,
            Form::SequenceDict { model, enc_obj, .. } => id == model@ || id == enc_obj@,
            Form::SequenceSharedDict { model, enc_obj, .. } => id == model@ || id == enc_obj@,
            Form::BaseResidual { residual, .. } => match residual {
                Residual::Inline => false,
                Residual::RansCoded { enc_obj, model } => id == enc_obj@ || id == model@,
                Residual::BaseSequence { enc_obj, model } => id == enc_obj@ || id == model@,
            },
            Form::EntropyRef { residual } => residual matches Residual::RansCoded {
                enc_obj,
                model,
            } && (id == enc_obj@ || id == model@),
            _ => false,
        },
{
    let s = objects_of(f);
    if s.len() > 0 {
        assert(among(s, s[0]@));
    }
    if s.len() > 1 {
        assert(among(s, s[1]@));
    }
}

/// A representation refers to the chunk that it repeats, is a residual over, or is coded
/// against, and to no other; a dictionary of zeros is none.
pub proof fn forms_refer_to_their_chunks(f: Form, id: Seq<u8>)
    ensures
        among(chunks_of(f), id) <==> match f {
            Form::ExactRef { target } => id == target@,
            Form::BaseResidual { base, .. } => id == base@,
            Form::SequenceDict { dictionary, .. } => id == dictionary@ && id != zero_id(),
            Form::SequenceSharedDict { dictionary, shared, .. } => id == shared@ || id
                == dictionary@ && id != zero_id(),
            _ => false,
        },
{
    let s = chunks_of(f);
    if s.len() > 0 {
        assert(among(s, s[0]@));
    }
    if s.len() > 1 {
        assert(among(s, s[1]@));
    }
}

/// The forms that every store reads need no feature; each of the others needs its own.
pub proof fn forms_need_their_features(f: Form)
    ensures
        mask_of(f) == match f {
            Form::EntropyRef { .. } => 1u64,
            Form::Palette => 2,
            Form::Permutation => 4,
            Form::SequenceRans { .. } => 8,
            Form::SparseBlock64 { .. } => 16,
            Form::SequenceDict { .. } => 32,
            Form::SequenceSharedDict { .. } => 64,
            Form::SequenceDeep { .. } => 128,
            _ => 0,
        },
        feature_of(f) != Some(Feature::MutationLog),
{
}

/// A read depends on the objects of the roots; on every chunk that a root refers to; and on
/// every chunk that one of these refers to, as far as the depth allows, with its objects.
pub proof fn deps_follow_references<F: Fn(&[u8]) -> Option<Descriptor>>(
    f: F,
    ep: Epoch,
    cs: Listing,
    roots: Seq<Descriptor>,
    k: nat,
    i: int,
    y: Seq<u8>,
    id: Seq<u8>,
    obj: Seq<u8>,
)
    requires
        0 <= i < roots.len(),
    ensures
        among(objects_of(roots[i].form), obj) ==> needed(f, ep, cs, roots, k, obj),
        among(chunks_of(roots[i].form), id) && k > 0 ==> near(f, ep, cs, roots, k, id),
        near(f, ep, cs, roots, k, id) ==> near(f, ep, cs, roots, k + 1, id),
        near(f, ep, cs, roots, k, y) && leads_to(f, ep, cs, y, id) ==> near(
            f,
            ep,
            cs,
            roots,
            k + 1,
            id,
        ),
        near(f, ep, cs, roots, k, y) && made_from(f, ep, cs, y, obj) ==> needed(
            f,
            ep,
            cs,
            roots,
            k,
            obj,
        ),
        !near(f, ep, cs, roots, 0, id),
{
}

} // verus!
