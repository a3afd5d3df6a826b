use vstd::prelude::*;

use crate::image::{img_wf, Image, ImageModel};
use crate::timestamp::day_of_timestamp;
use crate::timestamp::timestamp_day;

verus! {

/// The mathematical content of a pile: the member images in insertion order
/// and the derived date they share.
pub ghost struct PileModel {
    pub pictures: Seq<ImageModel>,
    pub date: int,
}

/// Whether some member of `pics` carries this path.
pub open spec fn has_path(pics: Seq<ImageModel>, path: Seq<char>) -> bool {
    exists|i: int| 0 <= i < pics.len() && pics[i].path == path
}

/// Insertion into a picture set keyed by path: a second record with a path
/// already present changes nothing.
pub open spec fn pics_insert(pics: Seq<ImageModel>, img: ImageModel) -> Seq<ImageModel> {
    if has_path(pics, img.path) {
        pics
    } else {
        pics.push(img)
    }
}

/// Every member of `other` inserted into `pics`, in order.
pub open spec fn pics_merge(pics: Seq<ImageModel>, other: Seq<ImageModel>) -> Seq<ImageModel>
    decreases other.len(),
{
    if other.len() == 0 {
        pics
    } else {
        pics_merge(pics_insert(pics, other[0]), other.drop_first())
    }
}

/// The smallest date among the first `n` members.
pub open spec fn min_date_to(pics: Seq<ImageModel>, n: int) -> int
    recommends
        1 <= n <= pics.len(),
    decreases n,
{
    if n <= 1 {
        day_of_timestamp(pics[0].timestamp)
    } else {
        let prev = min_date_to(pics, n - 1);
        let d = day_of_timestamp(pics[n - 1].timestamp);
        if d < prev {
            d
        } else {
            prev
        }
    }
}

/// The date of a non-empty pile: the smallest date among its members.
pub open spec fn pile_date(pics: Seq<ImageModel>) -> int
    recommends
        pics.len() >= 1,
{
    min_date_to(pics, pics.len() as int)
}

/// Structural conditions every pile keeps: every member well formed, no two
/// members with the same path.
pub open spec fn pics_wf(pics: Seq<ImageModel>) -> bool {
    &&& forall|i: int| 0 <= i < pics.len() ==> img_wf(#[trigger] pics[i])
    &&& forall|i: int, j: int|
        0 <= i < j < pics.len() ==> (#[trigger] pics[i]).path != (#[trigger] pics[j]).path
}

/// The pile date really is the least date among the members: no member's
/// date is below it, and some member attains it.
pub proof fn lemma_pile_date_is_min(pics: Seq<ImageModel>, n: int)
    requires
        1 <= n <= pics.len(),
    ensures
        forall|i: int|
            0 <= i < n ==> min_date_to(pics, n) <= day_of_timestamp(
                (#[trigger] pics[i]).timestamp,
            ),
        exists|i: int|
            0 <= i < n && min_date_to(pics, n) == day_of_timestamp(
                (#[trigger] pics[i]).timestamp,
            ),
    decreases n,
{
    if n == 1 {
        assert(0 <= 0 < n && min_date_to(pics, n) == day_of_timestamp(pics[0].timestamp));
    } else {
        lemma_pile_date_is_min(pics, n - 1);
        let d = day_of_timestamp(pics[n - 1].timestamp);
        if d < min_date_to(pics, n - 1) {
            assert(0 <= n - 1 < n && min_date_to(pics, n) == day_of_timestamp(
                pics[n - 1].timestamp,
            ));
        } else {
            let i0 = choose|i: int|
                0 <= i < n - 1 && min_date_to(pics, n - 1) == day_of_timestamp(
                    pics[i].timestamp,
                );
            assert(0 <= i0 < n && min_date_to(pics, n) == day_of_timestamp(pics[i0].timestamp));
        }
    }
}

/// A cluster of images judged related by the match predicate, together with
/// the date its members share. A pile is never empty, and its date is
/// recomputed whenever membership changes, never set on its own.
#[derive(Debug, Clone)]
pub struct Pile {
    pub pictures: Vec<Image>,
    pub date: i64,
}

impl View for Pile {
    type V = PileModel;

    open spec fn view(&self) -> PileModel {
        PileModel {
            pictures: self.pictures@.map_values(|img: Image| img@),
            date: self.date as int,
        }
    }
}

impl Pile {
    /// A well-formed pile is non-empty, has structurally sound members, and
    /// carries the least member date.
    pub open spec fn wf(&self) -> bool {
        &&& self@.pictures.len() >= 1
        &&& pics_wf(self@.pictures)
        &&& self@.date == pile_date(self@.pictures)
    }

    /// How many images the pile holds. A pile may never be empty, so there
    /// is no emptiness test beside it.
    pub fn len(&self) -> (r: usize)
        ensures
            r == self@.pictures.len(),
    {
        self.pictures.len()
    }

    /// The pile's date: the least date among its members.
    pub fn date(&self) -> (r: i64)
        ensures
            r == self@.date,
    {
        self.date
    }

    /// Whether a record with this image's path is already a member.
    pub fn contains_image(&self, image: &Image) -> (r: bool)
        ensures
            r == has_path(self@.pictures, image@.path),
    {
        let n = self.pictures.len();
        let mut i: usize = 0;
        while i < n
            invariant
                n == self@.pictures.len(),
                i <= n,
                forall|k: int| 0 <= k < i ==> (#[trigger] self@.pictures[k]).path != image@.path,
            decreases n - i,
        {
            if self.pictures[i].same_image(image) {
                assert(0 <= i < self@.pictures.len() && self@.pictures[i as int].path
                    == image@.path);
                return true;
            }
            i = i + 1;
        }
        false
    }

    /// A new pile holding one image, dated by it.
    pub fn new(image: Image) -> (r: Pile)
        requires
            image.wf(),
        ensures
            r@.pictures == seq![image@],
            r.wf(),
    {
        let date = timestamp_day(image.timestamp);
        let ghost m = image@;
        let pile = Pile { pictures: vec![image], date };
        proof {
            assert(pile@.pictures =~= seq![m]);
        }
        pile
    }

    /// An exact copy of this pile.
    pub fn duplicate(&self) -> (r: Pile)
        ensures
            r@ == self@,
    {
        let n = self.pictures.len();
        let mut pics: Vec<Image> = Vec::new();
        let mut i: usize = 0;
        while i < n
            invariant
                n == self@.pictures.len(),
                i <= n,
                pics@.len() == i,
                forall|k: int| 0 <= k < i ==> (#[trigger] pics@[k])@ == self@.pictures[k],
            decreases n - i,
        {
            pics.push(self.pictures[i].duplicate());
            i = i + 1;
        }
        let r = Pile { pictures: pics, date: self.date };
        proof {
            assert(r@.pictures =~= self@.pictures);
        }
        r
    }

    /// Recompute the date as the least member date.
    fn update_date(&mut self)
        requires
            old(self)@.pictures.len() >= 1,
            pics_wf(old(self)@.pictures),
        ensures
            final(self)@.pictures == old(self)@.pictures,
            final(self)@.date == pile_date(final(self)@.pictures),
    {
        let n = self.pictures.len();
        assert(img_wf(self@.pictures[0]));
        let mut d: i64 = timestamp_day(self.pictures[0].timestamp);
        let mut i: usize = 1;
        while i < n
            invariant
                n == self@.pictures.len(),
                1 <= i <= n,
                pics_wf(self@.pictures),
                d == min_date_to(self@.pictures, i as int),
            decreases n - i,
        {
            assert(img_wf(self@.pictures[i as int]));
            let di = timestamp_day(self.pictures[i].timestamp);
            if di < d {
                d = di;
            }
            i = i + 1;
        }
        self.date = d;
    }

    /// Insert an image; a record whose path is already present changes
    /// nothing. The date is recomputed.
    pub fn push(&mut self, image: Image)
        requires
            old(self).wf(),
            image.wf(),
        ensures
            final(self).wf(),
            final(self)@.pictures == pics_insert(old(self)@.pictures, image@),
    {
        if !self.contains_image(&image) {
            let ghost before = self@.pictures;
            let ghost m = image@;
            self.pictures.push(image);
            proof {
                assert(self@.pictures =~= before.push(m));
            }
        }
        self.update_date();
    }

    /// Absorb every member of another pile; the other pile is consumed and
    /// its identity does not survive. The date is recomputed over the union.
    pub fn merge(&mut self, other: Pile)
        requires
            old(self).wf(),
            other.wf(),
        ensures
            final(self).wf(),
            final(self)@.pictures == pics_merge(old(self)@.pictures, other@.pictures),
    {
        let mut rest = other;
        let ghost a0 = self@.pictures;
        let ghost b0 = rest@.pictures;
        while rest.pictures.len() > 0
            invariant
                self@.pictures.len() >= 1,
                pics_wf(self@.pictures),
                pics_wf(rest@.pictures),
                pics_merge(a0, b0) == pics_merge(self@.pictures, rest@.pictures),
            decreases rest@.pictures.len(),
    {
            let ghost a = self@.pictures;
            let ghost b = rest@.pictures;
            let img = rest.pictures.remove(0);
            proof {
                assert(rest@.pictures =~= b.drop_first());
                assert(img@ == b[0]);
            }
            if !self.contains_image(&img) {
                let ghost cur = self@.pictures;
                self.pictures.push(img);
                proof {
                    assert(self@.pictures =~= cur.push(b[0]));
                    assert(self@.pictures == pics_insert(a, b[0]));
                }
            } else {
                proof {
                    assert(self@.pictures == pics_insert(a, b[0]));
                }
            }
        }
        proof {
            assert(pics_merge(self@.pictures, rest@.pictures) == self@.pictures);
        }
        self.update_date();
    }
}

} // verus!
