//! The missing-media reporter: photo posts with no file in the inventory.
use vstd::prelude::*;
use crate::post::{MediaType, Post, PostView};
use crate::text;

verus! {

/// One reported post: its id and the URL to retrieve its media from.
#[derive(Debug)]
pub struct MissingMedia {
    pub id: String,
    pub url: String,
}

#[verifier::ext_equal]
pub ghost struct MissingMediaView {
    pub id: Seq<char>,
    pub url: Seq<char>,
}

impl View for MissingMedia {
    type V = MissingMediaView;

    open spec fn view(&self) -> MissingMediaView {
        MissingMediaView { id: self.id@, url: self.url@ }
    }
}

impl DeepView for MissingMedia {
    type V = MissingMediaView;

    open spec fn deep_view(&self) -> MissingMediaView {
        self.view()
    }
}

/// Whether some inventory entry's full file name starts with the post's id.
pub open spec fn has_media_match(p: PostView, inv: Seq<String>) -> bool {
    exists|j: int| 0 <= j < inv.len() && p.id.is_prefix_of(#[trigger] inv[j]@)
}

/// The report: one record per photo post without a matching inventory
/// entry, in post order.
pub open spec fn missing_report(posts: Seq<PostView>, inv: Seq<String>) -> Seq<MissingMediaView>
    decreases posts.len(),
{
    if posts.len() == 0 {
        Seq::empty()
    } else {
        let rest = missing_report(posts.drop_last(), inv);
        let p = posts.last();
        if p.media_type == MediaType::Photo && !has_media_match(p, inv) {
            rest.push(MissingMediaView { id: p.id, url: p.url })
        } else {
            rest
        }
    }
}

/// Whether any inventory name starts with `id`.
fn exists_prefix_match(inventory: &Vec<String>, id: &str) -> (r: bool)
    ensures
        r == exists|j: int| 0 <= j < inventory@.len() && id@.is_prefix_of(
            #[trigger] inventory@[j]@,
        ),
{
    let mut j: usize = 0;
    while j < inventory.len()
        invariant
            j <= inventory.len(),
            forall|x: int| 0 <= x < j ==> !id@.is_prefix_of(#[trigger] inventory@[x]@),
        decreases inventory.len() - j,
    {
        if text::str_starts_with(inventory[j].as_str(), id) {
            return true;
        }
        j = j + 1;
    }
    false
}

/// Reports every photo-type post whose id prefixes no inventory file name.
/// Pure with respect to the file system: the caller prints or stores the
/// records.
pub fn report_missing_media(posts: &Vec<Post>, inventory: &Vec<String>) -> (r: Vec<MissingMedia>)
    ensures
        r.deep_view() == missing_report(posts.deep_view(), inventory@),
{
    let ghost pv = posts.deep_view();
    let ghost inv = inventory@;
    let mut out: Vec<MissingMedia> = Vec::new();
    let mut i: usize = 0;
    proof {
        assert(pv.take(0) =~= Seq::<PostView>::empty());
        assert(out.deep_view() =~= missing_report(pv.take(0), inv));
    }
    while i < posts.len()
        invariant
            i <= posts.len(),
            pv == posts.deep_view(),
            inv == inventory@,
            out.deep_view() == missing_report(pv.take(i as int), inv),
        decreases posts.len() - i,
    {
        let post = &posts[i];
        proof {
            assert(post.deep_view() == pv[i as int]);
            assert(pv.take(i + 1).drop_last() =~= pv.take(i as int));
            assert(pv.take(i + 1).last() == pv[i as int]);
        }
        let found = exists_prefix_match(inventory, post.id.as_str());
        let is_photo = match post.media_type {
            MediaType::Photo => true,
            _ => false,
        };
        if is_photo && !found {
            let ghost before = out.deep_view();
            out.push(MissingMedia { id: post.id.clone(), url: post.url.clone() });
            proof {
                assert(out.deep_view() =~= before.push(
                    MissingMediaView { id: pv[i as int].id, url: pv[i as int].url },
                ));
            }
        }
        i = i + 1;
    }
    proof {
        assert(pv.take(posts.len() as int) =~= pv);
    }
    out
}

} // verus!
