//! Physical registers, and the order in which they are tried.
use vstd::prelude::*;

verus! {

/// A class of registers.
#[derive(Clone, Copy, Debug, PartialEq, Eq, Structural)]
pub enum RegClass {
    Int,
    Float,
    Vector,
}

impl RegClass {
    /// The number of the class.
    pub open spec fn number(self) -> int {
        match self {
            RegClass::Int => 0,
            RegClass::Float => 1,
            RegClass::Vector => 2,
        }
    }

    /// The number of the class.
    pub fn index(self) -> (r: usize)
        ensures
            r == self.number(),
            r < 3,
    {
        match self {
            RegClass::Int => 0,
            RegClass::Float => 1,
            RegClass::Vector => 2,
        }
    }
}

/// A physical register: the low six bits are its encoding, the bits above its class.
#[derive(Clone, Copy, Debug, PartialEq, Eq, Structural)]
pub struct PReg {
    pub bits: u8,
}

/// How many registers a class can have, less one.
pub const MAX_PREG: usize = 63;

/// How many register numbers there are.
pub const NUM_PREGS: usize = 256;

impl PReg {
    /// The number of the register among those of all classes.
    pub open spec fn number(self) -> int {
        self.bits as int
    }

    /// The number of the register in its class.
    pub open spec fn encoding(self) -> int {
        self.bits as int % 64
    }

    /// The register that stands for none.
    pub open spec fn is_invalid(self) -> bool {
        self.bits == 63
    }

    /// The number of the register among those of all classes.
    pub fn index(self) -> (r: usize)
        ensures
            r == self.number(),
            r < NUM_PREGS,
    {
        self.bits as usize
    }

    /// The number of the register in its class.
    pub fn hw_enc(self) -> (r: usize)
        ensures
            r == self.encoding(),
    {
        (self.bits % 64) as usize
    }

    /// The register that stands for none.
    pub fn invalid() -> (r: PReg)
        ensures
            r.is_invalid(),
    {
        PReg { bits: 63 }
    }

    /// The register, unless it stands for none.
    pub open spec fn valid(self) -> Option<PReg> {
        if self.is_invalid() {
            None
        } else {
            Some(self)
        }
    }

    /// The register, unless it stands for none.
    pub fn as_valid(self) -> (r: Option<PReg>)
        ensures
            r == self.valid(),
    {
        if self.bits == 63 {
            None
        } else {
            Some(self)
        }
    }
}

/// The registers that can be allocated, by class. Each list is in the order of the
/// registers' numbers.
pub struct MachineEnv {
    /// Those to be tried first.
    pub preferred_regs_by_class: [Vec<PReg>; 3],
    /// Those to be tried when none of the first can be had.
    pub non_preferred_regs_by_class: [Vec<PReg>; 3],
}

/// The registers from the number `bound` on, then those before it.
pub open spec fn rotated(regs: Seq<PReg>, bound: int) -> Seq<PReg> {
    regs.filter(|r: PReg| r.number() >= bound) + regs.filter(|r: PReg| r.number() < bound)
}

/// The encoding of the register is below the limit, if there is one.
pub open spec fn below(r: PReg, limit: Option<u8>) -> bool {
    limit is Some ==> r.encoding() < limit->0
}

/// The register is tried in turn: it is not the hint, and it is below the limit.
pub open spec fn in_turn(r: PReg, hint: Option<PReg>, limit: Option<u8>) -> bool {
    hint != Some(r) && below(r, limit)
}

impl MachineEnv {
    pub open spec fn preferred(&self, class: RegClass) -> Seq<PReg> {
        self.preferred_regs_by_class@[class.number()]@
    }

    pub open spec fn non_preferred(&self, class: RegClass) -> Seq<PReg> {
        self.non_preferred_regs_by_class@[class.number()]@
    }

    /// The registers of a class in the order in which they are tried: first the hint, then
    /// the preferred and the other registers, each beginning at a place that depends on
    /// `offset`.
    pub open spec fn traversal(
        &self,
        class: RegClass,
        hint: Option<PReg>,
        offset: nat,
        limit: Option<u8>,
    ) -> Seq<PReg> {
        let bound = 64 * class.number() + offset as int % 63;
        let first = if hint is Some && below(hint->0, limit) {
            seq![hint->0]
        } else {
            Seq::empty()
        };
        first + rotated(self.preferred(class), bound).filter(
            |r: PReg| in_turn(r, hint, limit),
        ) + rotated(self.non_preferred(class), bound).filter(|r: PReg| in_turn(r, hint, limit))
    }
}

fn is_below(r: PReg, limit: Option<u8>) -> (b: bool)
    ensures
        b == below(r, limit),
{
    match limit {
        Some(l) => r.hw_enc() < l as usize,
        None => true,
    }
}

/// Appends the registers that are tried in turn, from the number `bound` on or before it.
fn push_part(
    out: &mut Vec<PReg>,
    regs: &Vec<PReg>,
    bound: usize,
    from_bound: bool,
    hint: Option<PReg>,
    limit: Option<u8>,
)
    ensures
        from_bound ==> final(out)@ == old(out)@ + regs@.filter(
            |r: PReg| r.number() >= bound,
        ).filter(|r: PReg| in_turn(r, hint, limit)),
        !from_bound ==> final(out)@ == old(out)@ + regs@.filter(
            |r: PReg| r.number() < bound,
        ).filter(|r: PReg| in_turn(r, hint, limit)),
{
    let ghost start = out@;
    let ghost part = |r: PReg|
        if from_bound {
            r.number() >= bound
        } else {
            r.number() < bound
        };
    let ghost turn = |r: PReg| in_turn(r, hint, limit);
    proof {
        reveal(Seq::filter);
        assert(regs@.take(0) =~= Seq::empty());
        assert(start + regs@.take(0).filter(part).filter(turn) =~= start);
    }
    for i in 0..regs.len()
        invariant
            part == (|r: PReg|
                if from_bound {
                    r.number() >= bound
                } else {
                    r.number() < bound
                }),
            turn == (|r: PReg| in_turn(r, hint, limit)),
            out@ == start + regs@.take(i as int).filter(part).filter(turn),
    {
        let r = regs[i];
        let in_part = (r.index() >= bound) == from_bound;
        proof {
            let s = regs@.take(i + 1);
            assert(s.drop_last() =~= regs@.take(i as int));
            assert(s.last() == r);
            assert(in_part == part(r));
            assert(s.filter(part) == if in_part {
                s.drop_last().filter(part).push(r)
            } else {
                s.drop_last().filter(part)
            }) by {
                reveal(Seq::filter);
            }
            if in_part {
                let f = s.drop_last().filter(part).push(r);
                assert(f.drop_last() =~= s.drop_last().filter(part));
                assert(f.filter(turn) == if turn(r) {
                    f.drop_last().filter(turn).push(r)
                } else {
                    f.drop_last().filter(turn)
                }) by {
                    reveal(Seq::filter);
                }
            }
        }
        if in_part && hint != Some(r) && is_below(r, limit) {
            out.push(r);
        }
        assert(out@ =~= start + regs@.take(i + 1).filter(part).filter(turn));
    }
    proof {
        assert(regs@.take(regs@.len() as int) =~= regs@);
        let high = |r: PReg| r.number() >= bound;
        let low = |r: PReg| r.number() < bound;
        if from_bound {
            assert(part =~= high);
        } else {
            assert(part =~= low);
        }
    }
}

/// The registers of a class in the order in which they are tried.
pub fn reg_traversal(
    env: &MachineEnv,
    class: RegClass,
    hint: Option<PReg>,
    offset: usize,
    limit: Option<u8>,
) -> (r: Vec<PReg>)
    ensures
        r@ == env.traversal(class, hint, offset as nat, limit),
{
    let c = class.index();
    let bound: usize = 64 * c + offset % MAX_PREG;
    let mut out: Vec<PReg> = Vec::new();
    match hint {
        Some(h) => {
            if is_below(h, limit) {
                out.push(h);
            }
        },
        None => {},
    }
    let ghost turn = |r: PReg| in_turn(r, hint, limit);
    let ghost high = |r: PReg| r.number() >= bound;
    let ghost low = |r: PReg| r.number() < bound;
    let preferred = &env.preferred_regs_by_class[c];
    push_part(&mut out, preferred, bound, true, hint, limit);
    push_part(&mut out, preferred, bound, false, hint, limit);
    let others = &env.non_preferred_regs_by_class[c];
    push_part(&mut out, others, bound, true, hint, limit);
    push_part(&mut out, others, bound, false, hint, limit);
    proof {
        Seq::filter_distributes_over_add(preferred@.filter(high), preferred@.filter(low), turn);
        Seq::filter_distributes_over_add(others@.filter(high), others@.filter(low), turn);
        assert(bound == 64 * class.number() + offset as int % 63);
        assert(high =~= (|r: PReg| r.number() >= 64 * class.number() + offset as int % 63));
        assert(low =~= (|r: PReg| r.number() < 64 * class.number() + offset as int % 63));
        assert(out@ =~= env.traversal(class, hint, offset as nat, limit));
    }
    out
}

} // verus!
