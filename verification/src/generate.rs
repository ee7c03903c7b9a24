//! The sidecar planner: which tag files to write, with what contents.
//!
//! Matching policy: a post matches every inventory entry whose file name
//! without its extension starts with the post's id, so media added by
//! reblogs that share the id prefix also receive a side-file. Each match
//! gets one file named after the media file plus the side-file extension,
//! holding the post's tags one per line.
use vstd::prelude::*;
use vstd::string::StringExecFns;
use crate::post::{Post, PostView};
use crate::text;

verus! {

/// One side-file to be written: its file name and its full contents.
#[derive(Debug)]
pub struct SidecarFile {
    pub path: String,
    pub contents: String,
}

#[verifier::ext_equal]
pub ghost struct SidecarFileView {
    pub path: Seq<char>,
    pub contents: Seq<char>,
}

impl View for SidecarFile {
    type V = SidecarFileView;

    open spec fn view(&self) -> SidecarFileView {
        SidecarFileView { path: self.path@, contents: self.contents@ }
    }
}

impl DeepView for SidecarFile {
    type V = SidecarFileView;

    open spec fn deep_view(&self) -> SidecarFileView {
        self.view()
    }
}

/// The tag payload: every tag on its own line, each line newline-terminated.
pub open spec fn payload_of(tags: Seq<Seq<char>>) -> Seq<char>
    decreases tags.len(),
{
    if tags.len() == 0 {
        Seq::empty()
    } else {
        payload_of(tags.drop_last()) + tags.last() + seq!['\n']
    }
}

/// The side-file name for a media file name.
pub open spec fn sidecar_path(name: Seq<char>) -> Seq<char> {
    name + seq!['.', 't', 'x', 't']
}

/// Whether an inventory entry belongs to a post: its file name without the
/// extension starts with the post's id.
pub open spec fn post_matches(p: PostView, name: Seq<char>) -> bool {
    p.id.is_prefix_of(text::name_stem(name))
}

/// The side-files owed to one post, in inventory order.
pub open spec fn plan_for_post(p: PostView, inv: Seq<String>) -> Seq<SidecarFileView>
    decreases inv.len(),
{
    if inv.len() == 0 {
        Seq::empty()
    } else {
        let rest = plan_for_post(p, inv.drop_last());
        if post_matches(p, inv.last()@) {
            rest.push(
                SidecarFileView { path: sidecar_path(inv.last()@), contents: payload_of(p.tags) },
            )
        } else {
            rest
        }
    }
}

/// The side-files owed to all posts, posts outermost, inventory order within.
pub open spec fn sidecar_plan(posts: Seq<PostView>, inv: Seq<String>) -> Seq<SidecarFileView>
    decreases posts.len(),
{
    if posts.len() == 0 {
        Seq::empty()
    } else {
        sidecar_plan(posts.drop_last(), inv) + plan_for_post(posts.last(), inv)
    }
}

/// Builds one post's tag payload.
fn payload_for(tags: &Vec<String>) -> (r: String)
    ensures
        r@ == payload_of(tags.deep_view()),
{
    let ghost tv = tags.deep_view();
    let mut out = String::new();
    let mut k: usize = 0;
    proof {
        reveal_strlit("\n");
        assert("\n"@ =~= seq!['\n']);
        assert(tv.take(0) =~= Seq::<Seq<char>>::empty());
        assert(out@ =~= payload_of(tv.take(0)));
    }
    while k < tags.len()
        invariant
            k <= tags.len(),
            tv == tags.deep_view(),
            "\n"@ == seq!['\n'],
            out@ == payload_of(tv.take(k as int)),
        decreases tags.len() - k,
    {
        out.append(tags[k].as_str());
        out.append("\n");
        proof {
            assert(tv.take(k + 1).drop_last() =~= tv.take(k as int));
            assert(tv.take(k + 1).last() == tv[k as int]);
        }
        k = k + 1;
    }
    proof {
        assert(tv.take(tags.len() as int) =~= tv);
    }
    out
}

/// Plans the side-files for every post against the inventory snapshot: for
/// each post, one file per matching inventory entry, named after the entry
/// plus the side-file extension, containing the post's tags one per line.
pub fn plan_sidecars(posts: &Vec<Post>, inventory: &Vec<String>) -> (r: Vec<SidecarFile>)
    ensures
        r.deep_view() == sidecar_plan(posts.deep_view(), inventory@),
{
    let ghost pv = posts.deep_view();
    let ghost inv = inventory@;
    let mut out: Vec<SidecarFile> = Vec::new();
    let mut i: usize = 0;
    proof {
        assert(pv.take(0) =~= Seq::<PostView>::empty());
        assert(out.deep_view() =~= sidecar_plan(pv.take(0), inv));
    }
    while i < posts.len()
        invariant
            i <= posts.len(),
            pv == posts.deep_view(),
            inv == inventory@,
            out.deep_view() == sidecar_plan(pv.take(i as int), inv),
        decreases posts.len() - i,
    {
        let post = &posts[i];
        let payload = payload_for(&post.tags);
        proof {
            assert(post.deep_view() == pv[i as int]);
            assert(payload@ == payload_of(pv[i as int].tags));
            assert(inv.take(0) =~= Seq::<String>::empty());
        }
        let ghost out_at_post = out.deep_view();
        let mut k: usize = 0;
        while k < inventory.len()
            invariant
                k <= inventory.len(),
                i < posts.len(),
                pv == posts.deep_view(),
                inv == inventory@,
                post == &posts[i as int],
                post.deep_view() == pv[i as int],
                payload@ == payload_of(pv[i as int].tags),
                out_at_post == sidecar_plan(pv.take(i as int), inv),
                out.deep_view() == out_at_post + plan_for_post(pv[i as int], inv.take(k as int)),
            decreases inventory.len() - k,
        {
            proof {
                assert(inv.take(k + 1).drop_last() =~= inv.take(k as int));
                assert(inv.take(k + 1).last() == inv[k as int]);
            }
            let name = &inventory[k];
            let stem = text::stem_of(name.as_str());
            if text::str_starts_with(stem.as_str(), post.id.as_str()) {
                let mut path = name.clone();
                path.append(".txt");
                proof {
                    reveal_strlit(".txt");
                    assert(".txt"@ =~= seq!['.', 't', 'x', 't']);
                    assert(path@ == sidecar_path(inv[k as int]@));
                }
                let ghost before = out.deep_view();
                out.push(SidecarFile { path, contents: payload.clone() });
                proof {
                    assert(out.deep_view() =~= before.push(
                        SidecarFileView {
                            path: sidecar_path(inv[k as int]@),
                            contents: payload_of(pv[i as int].tags),
                        },
                    ));
                    assert(out.deep_view() =~= out_at_post + plan_for_post(
                        pv[i as int],
                        inv.take(k + 1),
                    ));
                }
            } else {
                proof {
                    assert(out.deep_view() =~= out_at_post + plan_for_post(
                        pv[i as int],
                        inv.take(k + 1),
                    ));
                }
            }
            k = k + 1;
        }
        proof {
            assert(inv.take(inventory.len() as int) =~= inv);
            assert(pv.take(i + 1).drop_last() =~= pv.take(i as int));
            assert(pv.take(i + 1).last() == pv[i as int]);
            assert(out.deep_view() == sidecar_plan(pv.take(i + 1), inv));
        }
        i = i + 1;
    }
    proof {
        assert(pv.take(posts.len() as int) =~= pv);
    }
    out
}

/// A side-file name always bears the side-file extension, so a later scan
/// excludes it from the inventory.
pub proof fn lemma_sidecar_path_is_side_file(name: Seq<char>)
    requires
        name.len() > 0,
    ensures
        text::name_extension(sidecar_path(name)) == Some(text::sidecar_ext()),
{
    let p = sidecar_path(name);
    let dot = name.len() as int;
    assert(p[dot] == '.');
    assert forall|j: int| dot < j < p.len() implies p[j] != '.' by {
        assert(p[j] == seq!['.', 't', 'x', 't'][j - dot]);
    }
    text::lemma_last_dot_at(p, dot);
    assert(p.subrange(dot + 1, p.len() as int) =~= text::sidecar_ext());
}

proof fn lemma_plan_for_post_paths(p: PostView, inv: Seq<String>)
    requires
        forall|j: int| 0 <= j < inv.len() ==> (#[trigger] inv[j]@).len() > 0,
    ensures
        forall|j: int| 0 <= j < plan_for_post(p, inv).len() ==> text::name_extension(
            #[trigger] plan_for_post(p, inv)[j].path,
        ) == Some(text::sidecar_ext()),
    decreases inv.len(),
{
    if inv.len() > 0 {
        assert(forall|j: int| 0 <= j < inv.drop_last().len() ==> inv.drop_last()[j] == inv[j]);
        lemma_plan_for_post_paths(p, inv.drop_last());
        let rest = plan_for_post(p, inv.drop_last());
        let whole = plan_for_post(p, inv);
        if post_matches(p, inv.last()@) {
            lemma_sidecar_path_is_side_file(inv.last()@);
        }
        assert forall|j: int| 0 <= j < whole.len() implies text::name_extension(whole[j].path)
            == Some(text::sidecar_ext()) by {
            if j < rest.len() {
                assert(whole[j] == rest[j]);
            }
        }
    }
}

/// Every file the plan writes bears the side-file extension.
pub proof fn lemma_plan_paths_are_side_files(posts: Seq<PostView>, inv: Seq<String>)
    requires
        forall|j: int| 0 <= j < inv.len() ==> (#[trigger] inv[j]@).len() > 0,
    ensures
        forall|j: int| 0 <= j < sidecar_plan(posts, inv).len() ==> text::name_extension(
            #[trigger] sidecar_plan(posts, inv)[j].path,
        ) == Some(text::sidecar_ext()),
    decreases posts.len(),
{
    if posts.len() > 0 {
        lemma_plan_paths_are_side_files(posts.drop_last(), inv);
        lemma_plan_for_post_paths(posts.last(), inv);
        let a = sidecar_plan(posts.drop_last(), inv);
        let b = plan_for_post(posts.last(), inv);
        let whole = sidecar_plan(posts, inv);
        assert forall|j: int| 0 <= j < whole.len() implies text::name_extension(whole[j].path)
            == Some(text::sidecar_ext()) by {
            if j < a.len() {
                assert(whole[j] == a[j]);
            } else {
                assert(whole[j] == b[j - a.len()]);
            }
        }
    }
}

/// Running generation again against the same posts and a directory that now
/// also holds any number of side-files yields the very same plan: with each
/// file overwritten rather than appended to, the side-files come out
/// byte-identical.
pub proof fn lemma_regeneration_stable(
    posts: Seq<PostView>,
    names: Seq<String>,
    written: Seq<String>,
)
    requires
        forall|j: int| 0 <= j < written.len() ==> text::name_extension((#[trigger] written[j])@)
            == Some(text::sidecar_ext()),
    ensures
        sidecar_plan(posts, crate::inventory::media_candidates(names + written)) == sidecar_plan(
            posts,
            crate::inventory::media_candidates(names),
        ),
{
    assert forall|j: int| 0 <= j < written.len() implies !crate::inventory::is_candidate(
        #[trigger] written[j],
    ) by {}
    crate::inventory::lemma_rescan_stable(names, written);
}

} // verus!
