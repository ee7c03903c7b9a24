//! The in-memory shape of one parsed post record.
use vstd::prelude::*;

verus! {

/// Kind of media attached to a post, used by the missing-media report.
#[derive(Debug, Clone, Copy, PartialEq, Eq, Structural)]
pub enum MediaType {
    Text,
    Photo,
    Other,
}

/// One post record: identifier, tag list in document order, and what is known
/// about its attached media. Built incrementally by the parser and sealed when
/// the closing element of the post is reached.
#[derive(Debug)]
pub struct Post {
    /// Required, non-empty identifier taken from the post element.
    pub id: String,
    /// Reference URL of the first attached media item; empty when none was seen.
    pub url: String,
    /// `Photo` when at least one photo element was seen inside the post.
    pub media_type: MediaType,
    /// Tag texts in document order; duplicates retained; remapping applied.
    pub tags: Vec<String>,
    /// Extension inferred from the first media URL that carries one.
    pub media_extension: Option<String>,
    /// Number of photo elements seen inside the post.
    pub image_count: usize,
}

/// Mathematical model of a `Post`.
#[verifier::ext_equal]
pub ghost struct PostView {
    pub id: Seq<char>,
    pub url: Seq<char>,
    pub media_type: MediaType,
    pub tags: Seq<Seq<char>>,
    pub media_extension: Option<Seq<char>>,
    pub image_count: nat,
}

impl PostView {
    /// The state of a record before anything of a post has been read.
    pub open spec fn empty() -> PostView {
        PostView {
            id: Seq::empty(),
            url: Seq::empty(),
            media_type: MediaType::Text,
            tags: Seq::empty(),
            media_extension: None,
            image_count: 0,
        }
    }
}

impl View for Post {
    type V = PostView;

    open spec fn view(&self) -> PostView {
        PostView {
            id: self.id@,
            url: self.url@,
            media_type: self.media_type,
            tags: self.tags.deep_view(),
            media_extension: self.media_extension.deep_view(),
            image_count: self.image_count as nat,
        }
    }
}

impl DeepView for Post {
    type V = PostView;

    open spec fn deep_view(&self) -> PostView {
        self.view()
    }
}

impl Default for Post {
    fn default() -> (p: Post)
        ensures
            p@ == PostView::empty(),
    {
        let p = Post {
            id: String::new(),
            url: String::new(),
            media_type: MediaType::Text,
            tags: Vec::new(),
            media_extension: None,
            image_count: 0,
        };
        proof {
            assert(p@.tags =~= Seq::<Seq<char>>::empty());
            assert(p@ =~= PostView::empty());
        }
        p
    }
}

} // verus!
