use vstd::prelude::*;

verus! {

/// Which way the curve runs through a cell; it fixes the order in which the
/// four quadrants are visited and the orientations of the subcells.
#[derive(Clone, Copy, Debug, PartialEq, Eq, Structural)]
pub enum QuadOrientation {
    A,
    B,
    C,
    D,
}

/// One cell of an adaptive quadtree whose cells are traced in Hilbert-like
/// order. Quadrant 0 is the upper left, 1 the upper right, 2 the lower left
/// and 3 the lower right.
pub struct Hilbert {
    pub orientation: QuadOrientation,
    pub ul: Option<Box<Hilbert>>,
    pub ur: Option<Box<Hilbert>>,
    pub dl: Option<Box<Hilbert>>,
    pub dr: Option<Box<Hilbert>>,
    pub left: u32,
    pub right: u32,
    pub top: u32,
    pub bottom: u32,
}

/// The midpoint of two coordinates, rounded down.
pub open spec fn mid(a: u32, b: u32) -> int {
    (a + b) / 2
}

fn midpoint(a: u32, b: u32) -> (r: u32)
    ensures
        r == mid(a, b),
{
    a / 2 + b / 2 + (a % 2 + b % 2) / 2
}

/// The subcell orientations of a cell, in quadrant order.
pub open spec fn sub_orientations(o: QuadOrientation) -> Seq<QuadOrientation> {
    match o {
        QuadOrientation::A => seq![QuadOrientation::A, QuadOrientation::A, QuadOrientation::D, QuadOrientation::B],
        QuadOrientation::B => seq![QuadOrientation::B, QuadOrientation::C, QuadOrientation::B, QuadOrientation::A],
        QuadOrientation::C => seq![QuadOrientation::D, QuadOrientation::B, QuadOrientation::C, QuadOrientation::C],
        QuadOrientation::D => seq![QuadOrientation::C, QuadOrientation::D, QuadOrientation::A, QuadOrientation::D],
    }
}

/// Every cell has either no subcells or all four.
pub open spec fn full_or_empty(h: Hilbert) -> bool
    decreases h,
{
    &&& (h.ul is Some <==> h.ur is Some)
    &&& (h.ur is Some <==> h.dl is Some)
    &&& (h.dl is Some <==> h.dr is Some)
    &&& match &h.ul {
        Some(c) => full_or_empty(**c),
        None => true,
    }
    &&& match &h.ur {
        Some(c) => full_or_empty(**c),
        None => true,
    }
    &&& match &h.dl {
        Some(c) => full_or_empty(**c),
        None => true,
    }
    &&& match &h.dr {
        Some(c) => full_or_empty(**c),
        None => true,
    }
}

/// The subcell slot `new_c` keeps what the slot `old_c` held.
pub open spec fn slot_extends(new_c: Option<Box<Hilbert>>, old_c: Option<Box<Hilbert>>) -> bool
    decreases old_c,
{
    match old_c {
        Some(c) => match new_c {
            Some(d) => extends(*d, *c),
            None => false,
        },
        None => true,
    }
}

/// `new` holds every cell of `old` with the same bounds and orientation;
/// cells may only have been added.
pub open spec fn extends(new: Hilbert, old: Hilbert) -> bool
    decreases old,
{
    &&& new.orientation == old.orientation
    &&& new.left == old.left
    &&& new.right == old.right
    &&& new.top == old.top
    &&& new.bottom == old.bottom
    &&& slot_extends(new.ul, old.ul)
    &&& slot_extends(new.ur, old.ur)
    &&& slot_extends(new.dl, old.dl)
    &&& slot_extends(new.dr, old.dr)
}

/// The number of empty subcell slots in the tree: each traces as one point.
pub open spec fn empty_slots(h: Hilbert) -> nat
    decreases h,
{
    (match &h.ul {
        Some(c) => empty_slots(**c),
        None => 1,
    }) + (match &h.ur {
        Some(c) => empty_slots(**c),
        None => 1,
    }) + (match &h.dl {
        Some(c) => empty_slots(**c),
        None => 1,
    }) + (match &h.dr {
        Some(c) => empty_slots(**c),
        None => 1,
    })
}

proof fn lemma_extends_refl(h: Hilbert)
    ensures
        extends(h, h),
    decreases h,
{
    if let Some(c) = h.ul {
        lemma_extends_refl(*c);
    }
    if let Some(c) = h.ur {
        lemma_extends_refl(*c);
    }
    if let Some(c) = h.dl {
        lemma_extends_refl(*c);
    }
    if let Some(c) = h.dr {
        lemma_extends_refl(*c);
    }
}

proof fn lemma_slot_trans(a: Option<Box<Hilbert>>, b: Option<Box<Hilbert>>, c: Option<Box<Hilbert>>)
    requires
        slot_extends(a, b),
        slot_extends(b, c),
    ensures
        slot_extends(a, c),
    decreases c,
{
    if let Some(cc) = c {
        let bb = b->Some_0;
        let aa = a->Some_0;
        lemma_extends_trans(*aa, *bb, *cc);
    }
}

proof fn lemma_extends_trans(a: Hilbert, b: Hilbert, c: Hilbert)
    requires
        extends(a, b),
        extends(b, c),
    ensures
        extends(a, c),
    decreases c,
{
    lemma_slot_trans(a.ul, b.ul, c.ul);
    lemma_slot_trans(a.ur, b.ur, c.ur);
    lemma_slot_trans(a.dl, b.dl, c.dl);
    lemma_slot_trans(a.dr, b.dr, c.dr);
}

impl Hilbert {
    pub open spec fn left(&self) -> u32 {
        self.left
    }

    pub open spec fn right(&self) -> u32 {
        self.right
    }

    pub open spec fn top(&self) -> u32 {
        self.top
    }

    pub open spec fn bottom(&self) -> u32 {
        self.bottom
    }

    pub open spec fn orientation(&self) -> QuadOrientation {
        self.orientation
    }

    /// The subcell in quadrant `q`, if any.
    pub open spec fn child(&self, q: int) -> Option<Box<Hilbert>> {
        if q == 0 {
            self.ul
        } else if q == 1 {
            self.ur
        } else if q == 2 {
            self.dl
        } else {
            self.dr
        }
    }

    /// The quadrant holding `(x, y)`; points on a midline belong to the upper
    /// or left side.
    pub open spec fn quadrant(&self, x: u32, y: u32) -> int {
        if y <= mid(self.top(), self.bottom()) {
            if x <= mid(self.left(), self.right()) { 0 } else { 1 }
        } else {
            if x <= mid(self.left(), self.right()) { 2 } else { 3 }
        }
    }

    /// The cell has no subcells.
    pub open spec fn is_leaf(&self) -> bool {
        forall|q: int| 0 <= q < 4 ==> #[trigger] self.child(q) is None
    }

    /// A cell without subcells with the given bounds and orientation.
    pub open spec fn is_fresh(&self, o: QuadOrientation, left: u32, right: u32, top: u32, bottom: u32) -> bool {
        &&& self.is_leaf()
        &&& self.orientation() == o
        &&& self.left() == left
        &&& self.right() == right
        &&& self.top() == top
        &&& self.bottom() == bottom
    }

    /// How many levels of subcells lie above the point `(x, y)`.
    pub open spec fn depth_at(&self, x: u32, y: u32) -> nat
        decreases self,
    {
        let q = self.quadrant(x, y);
        if q == 0 {
            match &self.ul {
                Some(c) => 1 + c.depth_at(x, y),
                None => 0,
            }
        } else if q == 1 {
            match &self.ur {
                Some(c) => 1 + c.depth_at(x, y),
                None => 0,
            }
        } else if q == 2 {
            match &self.dl {
                Some(c) => 1 + c.depth_at(x, y),
                None => 0,
            }
        } else {
            match &self.dr {
                Some(c) => 1 + c.depth_at(x, y),
                None => 0,
            }
        }
    }

    pub fn new(right: u32, top: u32, left: u32, bottom: u32, starting_orientation: Option<QuadOrientation>) -> (r: Self)
        ensures
            r.is_fresh(
                match starting_orientation {
                    Some(o) => o,
                    None => QuadOrientation::A,
                },
                left,
                right,
                top,
                bottom,
            ),
    {
        let orientation = match starting_orientation {
            Some(o) => o,
            None => QuadOrientation::A,
        };
        let r = Hilbert { orientation, ul: None, ur: None, dl: None, dr: None, left, right, top, bottom };
        assert forall|q: int| 0 <= q < 4 implies #[trigger] r.child(q) is None by {}
        r
    }

    fn quadrant_of(&self, x: u32, y: u32) -> (r: usize)
        ensures
            r == self.quadrant(x, y),
            r < 4,
    {
        let mid_x = midpoint(self.left, self.right);
        let mid_y = midpoint(self.top, self.bottom);
        if y <= mid_y {
            if x <= mid_x { 0 } else { 1 }
        } else {
            if x <= mid_x { 2 } else { 3 }
        }
    }

    /// The subcell in the quadrant that holds `(x, y)`.
    pub fn get_leaf(&self, x: u32, y: u32) -> (r: &Option<Box<Hilbert>>)
        ensures
            *r == self.child(self.quadrant(x, y)),
    {
        let q = self.quadrant_of(x, y);
        if q == 0 {
            &self.ul
        } else if q == 1 {
            &self.ur
        } else if q == 2 {
            &self.dl
        } else {
            &self.dr
        }
    }

    /// Splits the cell into four fresh subcells, replacing any present.
    pub fn subdivide(&mut self)
        ensures
            old(self).is_leaf() ==> extends(*final(self), *old(self)),
            full_or_empty(*final(self)),
            final(self).orientation() == old(self).orientation(),
            final(self).left() == old(self).left(),
            final(self).right() == old(self).right(),
            final(self).top() == old(self).top(),
            final(self).bottom() == old(self).bottom(),
            forall|q: int| 0 <= q < 4 ==> #[trigger] final(self).child(q) is Some,
            final(self).child(0)->Some_0.is_fresh(
                sub_orientations(old(self).orientation())[0],
                old(self).left(),
                mid(old(self).left(), old(self).right()) as u32,
                old(self).top(),
                mid(old(self).top(), old(self).bottom()) as u32,
            ),
            final(self).child(1)->Some_0.is_fresh(
                sub_orientations(old(self).orientation())[1],
                mid(old(self).left(), old(self).right()) as u32,
                old(self).right(),
                old(self).top(),
                mid(old(self).top(), old(self).bottom()) as u32,
            ),
            final(self).child(2)->Some_0.is_fresh(
                sub_orientations(old(self).orientation())[2],
                old(self).left(),
                mid(old(self).left(), old(self).right()) as u32,
                mid(old(self).top(), old(self).bottom()) as u32,
                old(self).bottom(),
            ),
            final(self).child(3)->Some_0.is_fresh(
                sub_orientations(old(self).orientation())[3],
                mid(old(self).left(), old(self).right()) as u32,
                old(self).right(),
                mid(old(self).top(), old(self).bottom()) as u32,
                old(self).bottom(),
            ),
    {
        let ghost before = *self;
        proof {
            if before.is_leaf() {
                assert(before.child(0) is None && before.child(1) is None);
                assert(before.child(2) is None && before.child(3) is None);
            }
        }
        let mid_x = midpoint(self.left, self.right);
        let mid_y = midpoint(self.top, self.bottom);
        let o = match self.orientation {
            QuadOrientation::A => [QuadOrientation::A, QuadOrientation::A, QuadOrientation::D, QuadOrientation::B],
            QuadOrientation::B => [QuadOrientation::B, QuadOrientation::C, QuadOrientation::B, QuadOrientation::A],
            QuadOrientation::C => [QuadOrientation::D, QuadOrientation::B, QuadOrientation::C, QuadOrientation::C],
            QuadOrientation::D => [QuadOrientation::C, QuadOrientation::D, QuadOrientation::A, QuadOrientation::D],
        };
        assert(o@ == sub_orientations(self.orientation));
        self.ul = Some(Box::new(Hilbert::new(mid_x, self.top, self.left, mid_y, Some(o[0]))));
        self.ur = Some(Box::new(Hilbert::new(self.right, self.top, mid_x, mid_y, Some(o[1]))));
        self.dl = Some(Box::new(Hilbert::new(mid_x, mid_y, self.left, self.bottom, Some(o[2]))));
        self.dr = Some(Box::new(Hilbert::new(self.right, mid_y, mid_x, self.bottom, Some(o[3]))));
        proof {
            let ghost_children = seq![self.ul->Some_0, self.ur->Some_0, self.dl->Some_0, self.dr->Some_0];
            assert forall|k: int| 0 <= k < 4 implies full_or_empty(*#[trigger] ghost_children[k]) by {
                let c = *ghost_children[k];
                assert(c.child(0) is None && c.child(1) is None && c.child(2) is None && c.child(3) is None);
            }
            assert(full_or_empty(*ghost_children[0]));
            assert(full_or_empty(*ghost_children[1]));
            assert(full_or_empty(*ghost_children[2]));
            assert(full_or_empty(*ghost_children[3]));
        }
    }

    /// Refines the cell towards the point `(x, y)`: a missing subcell on the
    /// way splits its parent and uses up one level of `depth` more, so at
    /// least half of the requested levels come to lie above the point.
    pub fn subdivide_leaf(&mut self, x: u32, y: u32, depth: u32)
        ensures
            final(self).orientation() == old(self).orientation(),
            final(self).left() == old(self).left(),
            final(self).right() == old(self).right(),
            final(self).top() == old(self).top(),
            final(self).bottom() == old(self).bottom(),
            final(self).depth_at(x, y) >= (depth + 1) / 2,
            depth == 0 ==> *final(self) == *old(self),
            depth > 0 ==> final(self).child(final(self).quadrant(x, y)) is Some,
            depth > 0 && old(self).child(old(self).quadrant(x, y)) is Some ==> final(self).depth_at(x, y) >= 1 + depth / 2,
            full_or_empty(*old(self)) ==> extends(*final(self), *old(self)) && full_or_empty(*final(self)),
            old(self).child(old(self).quadrant(x, y)) is None ==> final(self).depth_at(x, y) == (depth + 1) / 2,
            (depth > 0 && (old(self).child(old(self).quadrant(x, y)) matches Some(c) && c.child(c.quadrant(x, y)) is None))
                ==> final(self).depth_at(x, y) == 1 + depth / 2,
        decreases depth,
    {
        if depth == 0 {
            proof {
                lemma_extends_refl(*self);
            }
            return;
        }
        let ghost before = *self;
        let q = self.quadrant_of(x, y);
        let leaf = if q == 0 {
            self.ul.take()
        } else if q == 1 {
            self.ur.take()
        } else if q == 2 {
            self.dl.take()
        } else {
            self.dr.take()
        };
        match leaf {
            Some(b) => {
                assert(before.child(q as int) == Some(b));
                let mut h = *b;
                proof {
                    if full_or_empty(before) {
                        assert(full_or_empty(h));
                    }
                }
                h.subdivide_leaf(x, y, depth - 1);
                let back = Some(Box::new(h));
                if q == 0 {
                    self.ul = back;
                } else if q == 1 {
                    self.ur = back;
                } else if q == 2 {
                    self.dl = back;
                } else {
                    self.dr = back;
                }
                proof {
                    if full_or_empty(before) {
                        if let Some(c) = before.ul {
                            lemma_extends_refl(*c);
                        }
                        if let Some(c) = before.ur {
                            lemma_extends_refl(*c);
                        }
                        if let Some(c) = before.dl {
                            lemma_extends_refl(*c);
                        }
                        if let Some(c) = before.dr {
                            lemma_extends_refl(*c);
                        }
                        assert(extends(*self, before));
                        assert(full_or_empty(*self));
                    }
                }
            },
            None => {
                assert(*self == before);
                self.subdivide();
                let ghost mid_state = *self;
                assert(self.child(q as int) is Some);
                proof {
                    let c = *self.child(q as int)->Some_0;
                    assert(c.child(c.quadrant(x, y)) is None);
                    assert(c.depth_at(x, y) == 0);
                    assert(self.depth_at(x, y) == 1);
                }
                self.subdivide_leaf(x, y, depth - 1);
                proof {
                    if full_or_empty(before) {
                        assert(before.is_leaf());
                        lemma_extends_trans(*self, mid_state, before);
                    }
                }
            },
        }
    }

    /// The corner point of quadrant `q`, in doubled coordinates: the center
    /// of the quadrant with both coordinates multiplied by two.
    pub open spec fn corner(&self, q: int) -> (u64, u64) {
        let mx = mid(self.left(), self.right());
        let my = mid(self.top(), self.bottom());
        let x = if q == 0 || q == 2 { self.left() + mx } else { self.right() + mx };
        let y = if q == 0 || q == 1 { self.top() + my } else { self.bottom() + my };
        (x as u64, y as u64)
    }

    /// The quadrants in the order that the curve visits them.
    pub open spec fn visit_order(o: QuadOrientation) -> Seq<int> {
        match o {
            QuadOrientation::A => seq![2, 0, 1, 3],
            QuadOrientation::B => seq![1, 0, 2, 3],
            QuadOrientation::C => seq![1, 3, 2, 0],
            QuadOrientation::D => seq![2, 3, 1, 0],
        }
    }

    /// The traced curve: quadrants in visit order, each as the curve of its
    /// subcell or, without one, as its corner point.
    pub open spec fn raster(&self) -> Seq<(u64, u64)>
        decreases self,
    {
        let p0 = match &self.ul {
            Some(c) => c.raster(),
            None => seq![self.corner(0)],
        };
        let p1 = match &self.ur {
            Some(c) => c.raster(),
            None => seq![self.corner(1)],
        };
        let p2 = match &self.dl {
            Some(c) => c.raster(),
            None => seq![self.corner(2)],
        };
        let p3 = match &self.dr {
            Some(c) => c.raster(),
            None => seq![self.corner(3)],
        };
        match self.orientation {
            QuadOrientation::A => p2 + p0 + p1 + p3,
            QuadOrientation::B => p1 + p0 + p2 + p3,
            QuadOrientation::C => p1 + p3 + p2 + p0,
            QuadOrientation::D => p2 + p3 + p1 + p0,
        }
    }

    fn corner_point(&self, q: usize) -> (r: (u64, u64))
        ensures
            r == self.corner(q as int),
    {
        let mx = midpoint(self.left, self.right) as u64;
        let my = midpoint(self.top, self.bottom) as u64;
        let x = if q == 0 || q == 2 { self.left as u64 + mx } else { self.right as u64 + mx };
        let y = if q == 0 || q == 1 { self.top as u64 + my } else { self.bottom as u64 + my };
        (x, y)
    }

    /// The points of the traced curve in doubled coordinates (divide each by
    /// two for the cell centers).
    pub fn rasterize(&self) -> (r: Vec<(u64, u64)>)
        ensures
            r@ == self.raster(),
            r@.len() == empty_slots(*self),
            self.is_leaf() ==> r@.len() == 4 && forall|k: int|
                0 <= k < 4 ==> #[trigger] r@[k] == self.corner(Self::visit_order(self.orientation())[k]),
        decreases self,
    {
        proof {
            if self.is_leaf() {
                assert(self.child(0) is None && self.child(1) is None);
                assert(self.child(2) is None && self.child(3) is None);
            }
        }
        let mut p0 = match &self.ul {
            Some(c) => c.rasterize(),
            None => vec![self.corner_point(0)],
        };
        let mut p1 = match &self.ur {
            Some(c) => c.rasterize(),
            None => vec![self.corner_point(1)],
        };
        let mut p2 = match &self.dl {
            Some(c) => c.rasterize(),
            None => vec![self.corner_point(2)],
        };
        let mut p3 = match &self.dr {
            Some(c) => c.rasterize(),
            None => vec![self.corner_point(3)],
        };
        proof {
            assert(p0@ =~= match &self.ul { Some(c) => c.raster(), None => seq![self.corner(0)] });
            assert(p1@ =~= match &self.ur { Some(c) => c.raster(), None => seq![self.corner(1)] });
            assert(p2@ =~= match &self.dl { Some(c) => c.raster(), None => seq![self.corner(2)] });
            assert(p3@ =~= match &self.dr { Some(c) => c.raster(), None => seq![self.corner(3)] });
        }
        let mut r: Vec<(u64, u64)> = Vec::new();
        match self.orientation {
            QuadOrientation::A => {
                r.append(&mut p2);
                r.append(&mut p0);
                r.append(&mut p1);
                r.append(&mut p3);
            },
            QuadOrientation::B => {
                r.append(&mut p1);
                r.append(&mut p0);
                r.append(&mut p2);
                r.append(&mut p3);
            },
            QuadOrientation::C => {
                r.append(&mut p1);
                r.append(&mut p3);
                r.append(&mut p2);
                r.append(&mut p0);
            },
            QuadOrientation::D => {
                r.append(&mut p2);
                r.append(&mut p3);
                r.append(&mut p1);
                r.append(&mut p0);
            },
        }
        proof {
            assert(r@ =~= self.raster());
        }
        r
    }
}

} // verus!
