//! The media-file inventory: which directory entries are sidecar targets.
use vstd::prelude::*;
use crate::text;

verus! {

/// A file name is a media candidate unless it already bears the side-file
/// extension, so generated side-files are never themselves treated as media.
pub open spec fn is_candidate(n: String) -> bool {
    text::name_extension(n@) != Some(text::sidecar_ext())
}

/// The candidate names among `names`, in the given order.
pub open spec fn media_candidates(names: Seq<String>) -> Seq<String>
    decreases names.len(),
{
    if names.len() == 0 {
        Seq::empty()
    } else {
        let rest = media_candidates(names.drop_last());
        if is_candidate(names.last()) {
            rest.push(names.last())
        } else {
            rest
        }
    }
}

pub proof fn lemma_media_candidates_sound(names: Seq<String>)
    ensures
        forall|j: int| 0 <= j < media_candidates(names).len() ==> is_candidate(
            #[trigger] media_candidates(names)[j],
        ),
    decreases names.len(),
{
    if names.len() > 0 {
        lemma_media_candidates_sound(names.drop_last());
        let rest = media_candidates(names.drop_last());
        let whole = media_candidates(names);
        assert forall|j: int| 0 <= j < whole.len() implies is_candidate(whole[j]) by {
            if j < rest.len() {
                assert(whole[j] == rest[j]);
            }
        }
    }
}

/// Builds the inventory snapshot from a directory's file names: every name
/// is kept, in the given order, except those already bearing the side-file
/// extension.
pub fn build_file_cache(names: &Vec<String>) -> (r: Vec<String>)
    ensures
        r@ == media_candidates(names@),
        forall|j: int| 0 <= j < r@.len() ==> is_candidate(#[trigger] r@[j]),
{
    let mut out: Vec<String> = Vec::new();
    let mut i: usize = 0;
    proof {
        assert(names@.take(0) =~= Seq::<String>::empty());
        assert(out@ =~= media_candidates(names@.take(0)));
    }
    while i < names.len()
        invariant
            i <= names.len(),
            out@ == media_candidates(names@.take(i as int)),
        decreases names.len() - i,
    {
        proof {
            assert(names@.take(i + 1).drop_last() =~= names@.take(i as int));
            assert(names@.take(i + 1).last() == names@[i as int]);
        }
        if !text::is_sidecar_file_name(names[i].as_str()) {
            let n = names[i].clone();
            out.push(n);
        }
        i = i + 1;
    }
    proof {
        assert(names@.take(names.len() as int) =~= names@);
        lemma_media_candidates_sound(names@);
    }
    out
}

/// Adding only side-files to a directory leaves the inventory unchanged:
/// a later scan never picks up what an earlier run wrote.
pub proof fn lemma_rescan_stable(names: Seq<String>, extra: Seq<String>)
    requires
        forall|j: int| 0 <= j < extra.len() ==> !is_candidate(#[trigger] extra[j]),
    ensures
        media_candidates(names + extra) == media_candidates(names),
    decreases extra.len(),
{
    if extra.len() == 0 {
        assert(names + extra =~= names);
    } else {
        assert(forall|j: int| 0 <= j < extra.drop_last().len() ==> extra.drop_last()[j]
            == extra[j]);
        lemma_rescan_stable(names, extra.drop_last());
        assert((names + extra).drop_last() =~= names + extra.drop_last());
        assert((names + extra).last() == extra.last());
        assert(!is_candidate(extra.last()));
    }
}

} // verus!
