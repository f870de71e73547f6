use vstd::prelude::*;

verus! {

/// Where a point or a polygon lies relative to a plane.
///
/// The four variants form a lattice under [`PolygonType::combine`]:
/// `Coplanar` is the bottom, `Spanning` the top, and `Front` / `Back`
/// are incomparable.
#[derive(Clone, Copy, Debug, PartialEq, Eq, Structural)]
pub enum PolygonType {
    Coplanar,
    Front,
    Back,
    Spanning,
}

/// The sign of a real quantity, as reported by a kernel.
#[derive(Clone, Copy, Debug, PartialEq, Eq, Structural)]
pub enum Sign {
    Negative,
    Zero,
    Positive,
}

/// The bit pattern of a classification: bit 0 is "in front", bit 1 "behind".
pub open spec fn type_bits(t: PolygonType) -> nat {
    match t {
        PolygonType::Coplanar => 0,
        PolygonType::Front => 1,
        PolygonType::Back => 2,
        PolygonType::Spanning => 3,
    }
}

pub open spec fn has_front(t: PolygonType) -> bool {
    t == PolygonType::Front || t == PolygonType::Spanning
}

pub open spec fn has_back(t: PolygonType) -> bool {
    t == PolygonType::Back || t == PolygonType::Spanning
}

/// The classification whose front and back bits are those given.
pub open spec fn from_bits(front: bool, back: bool) -> PolygonType {
    if front && back {
        PolygonType::Spanning
    } else if front {
        PolygonType::Front
    } else if back {
        PolygonType::Back
    } else {
        PolygonType::Coplanar
    }
}

/// The join of two classifications (the bitwise or of their patterns).
pub open spec fn join(a: PolygonType, b: PolygonType) -> PolygonType {
    from_bits(has_front(a) || has_front(b), has_back(a) || has_back(b))
}

/// The classification of a whole vertex sequence: the join of all of them.
pub open spec fn join_all(ts: Seq<PolygonType>) -> PolygonType
    decreases ts.len(),
{
    if ts.len() == 0 {
        PolygonType::Coplanar
    } else {
        join(join_all(ts.drop_last()), ts.last())
    }
}

/// The same classification seen from the other side of the plane.
pub open spec fn mirror(t: PolygonType) -> PolygonType {
    from_bits(has_back(t), has_front(t))
}

pub open spec fn negate(s: Sign) -> Sign {
    match s {
        Sign::Negative => Sign::Positive,
        Sign::Zero => Sign::Zero,
        Sign::Positive => Sign::Negative,
    }
}

impl PolygonType {
    /// Bitwise or of the two classifications.
    pub fn combine(self, other: PolygonType) -> (r: PolygonType)
        ensures
            r == join(self, other),
            type_bits(r) == (type_bits(self) as u8 | type_bits(other) as u8) as nat,
    {
        let front = matches!(self, PolygonType::Front | PolygonType::Spanning)
            || matches!(other, PolygonType::Front | PolygonType::Spanning);
        let back = matches!(self, PolygonType::Back | PolygonType::Spanning)
            || matches!(other, PolygonType::Back | PolygonType::Spanning);
        let r = if front && back {
            PolygonType::Spanning
        } else if front {
            PolygonType::Front
        } else if back {
            PolygonType::Back
        } else {
            PolygonType::Coplanar
        };
        proof {
            let a = type_bits(self) as u8;
            let b = type_bits(other) as u8;
            assert(0u8 | 0u8 == 0u8 && 0u8 | 1u8 == 1u8 && 0u8 | 2u8 == 2u8 && 0u8 | 3u8 == 3u8
                && 1u8 | 1u8 == 1u8 && 1u8 | 2u8 == 3u8 && 1u8 | 3u8 == 3u8 && 2u8 | 2u8 == 2u8
                && 2u8 | 3u8 == 3u8 && 3u8 | 3u8 == 3u8 && 1u8 | 0u8 == 1u8 && 2u8 | 0u8 == 2u8
                && 3u8 | 0u8 == 3u8 && 2u8 | 1u8 == 3u8 && 3u8 | 1u8 == 3u8 && 3u8 | 2u8 == 3u8)
                by (bit_vector);
        }
        r
    }

    /// The classification relative to the same plane with its normal reversed.
    pub fn mirrored(self) -> (r: PolygonType)
        ensures
            r == mirror(self),
    {
        match self {
            PolygonType::Coplanar => PolygonType::Coplanar,
            PolygonType::Front => PolygonType::Back,
            PolygonType::Back => PolygonType::Front,
            PolygonType::Spanning => PolygonType::Spanning,
        }
    }
}

impl Sign {
    pub fn negated(self) -> (r: Sign)
        ensures
            r == negate(self),
    {
        match self {
            Sign::Negative => Sign::Positive,
            Sign::Zero => Sign::Zero,
            Sign::Positive => Sign::Negative,
        }
    }
}

/// Folds the vertex classifications of a polygon into the polygon's.
pub fn classify_all(types: &Vec<PolygonType>) -> (r: PolygonType)
    ensures
        r == join_all(types@),
        has_front(r) <==> exists|i: int| 0 <= i < types@.len() && has_front(#[trigger] types@[i]),
        has_back(r) <==> exists|i: int| 0 <= i < types@.len() && has_back(#[trigger] types@[i]),
{
    let mut acc = PolygonType::Coplanar;
    let mut i: usize = 0;
    while i < types.len()
        invariant
            i <= types@.len(),
            acc == join_all(types@.subrange(0, i as int)),
        decreases types@.len() - i,
    {
        proof {
            assert(types@.subrange(0, i + 1).drop_last() == types@.subrange(0, i as int));
        }
        acc = acc.combine(types[i]);
        i = i + 1;
    }
    proof {
        assert(types@.subrange(0, types@.len() as int) == types@);
        lemma_join_all_bits(types@);
    }
    acc
}

/// The front (back) bit of a join is set exactly when some element has it.
pub proof fn lemma_join_all_bits(ts: Seq<PolygonType>)
    ensures
        has_front(join_all(ts)) <==> exists|i: int|
            0 <= i < ts.len() && has_front(#[trigger] ts[i]),
        has_back(join_all(ts)) <==> exists|i: int|
            0 <= i < ts.len() && has_back(#[trigger] ts[i]),
    decreases ts.len(),
{
    if ts.len() > 0 {
        lemma_join_all_bits(ts.drop_last());
        let p = ts.drop_last();
        assert forall|i: int| 0 <= i < p.len() implies p[i] == ts[i] by {}
        if has_front(join_all(ts)) && !has_front(ts.last()) {
            let i = choose|i: int| 0 <= i < p.len() && has_front(p[i]);
            assert(ts[i] == p[i]);
        }
        if has_back(join_all(ts)) && !has_back(ts.last()) {
            let i = choose|i: int| 0 <= i < p.len() && has_back(p[i]);
            assert(ts[i] == p[i]);
        }
        if exists|i: int| 0 <= i < ts.len() && has_front(#[trigger] ts[i]) {
            let i = choose|i: int| 0 <= i < ts.len() && has_front(#[trigger] ts[i]);
            if i < ts.len() - 1 {
                assert(p[i] == ts[i]);
            }
        }
        if exists|i: int| 0 <= i < ts.len() && has_back(#[trigger] ts[i]) {
            let i = choose|i: int| 0 <= i < ts.len() && has_back(#[trigger] ts[i]);
            if i < ts.len() - 1 {
                assert(p[i] == ts[i]);
            }
        }
    }
}

} // verus!
