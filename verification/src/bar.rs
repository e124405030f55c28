//! The data model of the status bar's tag strip. Rendering itself is an
//! external concern; this keeps the widths the renderer works from.

use vstd::prelude::*;

verus! {

/// One tag label on the bar and the width its box takes.
pub struct Tag {
    pub width: u16,
    pub text: &'static str,
}

impl Tag {
    /// A label of `width` pixels showing `text`.
    pub fn new(width: u16, text: &'static str) -> (t: Tag)
        ensures
            t.width == width,
            t.text == text,
    {
        Tag { width, text }
    }
}

/// Total width of a row of tag labels.
pub open spec fn widths_sum(s: Seq<Tag>) -> int
    decreases s.len(),
{
    if s.len() == 0 {
        0
    } else {
        widths_sum(s.drop_last()) + s.last().width as int
    }
}

/// The whole tag strip: the labels and their combined width.
pub struct Tags {
    pub width: u16,
    pub tags: Vec<Tag>,
}

impl Tags {
    /// The strip made of `tags`; its width is the sum of the labels'
    /// widths, which must fit the protocol's pixel type.
    pub fn new(tags: Vec<Tag>) -> (r: Tags)
        requires
            widths_sum(tags@) <= u16::MAX,
        ensures
            r.tags == tags,
            r.width as int == widths_sum(tags@),
    {
        let mut width: u16 = 0;
        let mut i: usize = 0;
        proof {
            lemma_widths_sum_bounds(tags@, tags@.len() as int);
            assert(tags@.take(tags@.len() as int) =~= tags@);
        }
        while i < tags.len()
            invariant
                i <= tags@.len(),
                widths_sum(tags@) <= u16::MAX,
                width as int == widths_sum(tags@.take(i as int)),
                forall|m: int| 0 <= m <= tags@.len() ==> 0 <= widths_sum(#[trigger] tags@.take(m)),
                forall|m: int|
                    0 <= m <= tags@.len() ==> widths_sum(#[trigger] tags@.take(m)) <= widths_sum(
                        tags@,
                    ),
            decreases tags@.len() - i,
        {
            proof {
                assert(tags@.take(i as int + 1).drop_last() =~= tags@.take(i as int));
                assert(tags@.take(i as int + 1).last() == tags@[i as int]);
            }
            width = width + tags[i].width;
            i = i + 1;
        }
        proof {
            assert(tags@.take(tags@.len() as int) =~= tags@);
        }
        Tags { width, tags }
    }
}

/// Prefix sums of label widths grow with the prefix and never drop below
/// zero.
pub proof fn lemma_widths_sum_bounds(s: Seq<Tag>, n: int)
    requires
        0 <= n <= s.len(),
    ensures
        forall|m: int| 0 <= m <= n ==> 0 <= widths_sum(#[trigger] s.take(m)),
        forall|m: int| 0 <= m <= n ==> widths_sum(#[trigger] s.take(m)) <= widths_sum(s.take(n)),
    decreases n,
{
    if n > 0 {
        lemma_widths_sum_bounds(s, n - 1);
        assert(s.take(n).drop_last() =~= s.take(n - 1));
        assert(widths_sum(s.take(n - 1)) <= widths_sum(s.take(n)));
    } else {
        assert(s.take(0) =~= Seq::<Tag>::empty());
    }
}

} // verus!
