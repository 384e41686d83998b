//! The slow paths that the emitted code calls, and how each of them is called.
use crate::clif::{CallConv, Prototype, Sig, Ty};
use vstd::prelude::*;

verus! {

/// A slow path.
#[derive(Clone, Copy, Debug, PartialEq, Eq, Structural, Hash)]
pub enum Slow {
    /// `(go, cfr, base, bc, ident)`
    GetById,
    /// `(go, cfr, base, val, bc, ident)`, without a result
    PutById,
    /// `(go, cfr, base, idx, bc)`
    GetByVal,
    /// `(go, cfr, base, idx, val, bc)`
    PutByVal,
    /// `(go, cfr, base, bc)`
    GetLength,
    /// `(go, lhs, rhs)`
    Add,
    /// `(go, lhs, rhs)`
    Less,
    /// `(go, v)`
    Inc,
    /// `(go, lhs, rhs)`
    BitOp,
    /// `(go, cfr, this)`
    ToThis,
    /// `(go, cfr, md_off)`
    ResolveScope,
    /// `(go, cfr, scope, md_off)`
    GetFromScope,
    /// `(go, cfr, scope, val, md_off)`
    PutToScope,
    /// `(go, cfr, callee, this, callee_frame, argc, bc)`, an ordinary call in every mode
    DispatchCall,
    /// `(go)`
    HandleTraps,
    /// `(go, lhs, rhs)`
    StrictEq,
    /// `(go, v)`
    ToBoolean,
}

/// The slow paths, in the order in which they are declared.
pub open spec fn slow_paths() -> Seq<Slow> {
    seq![
        Slow::GetById,
        Slow::PutById,
        Slow::GetByVal,
        Slow::PutByVal,
        Slow::GetLength,
        Slow::Add,
        Slow::Less,
        Slow::Inc,
        Slow::BitOp,
        Slow::ToThis,
        Slow::ResolveScope,
        Slow::GetFromScope,
        Slow::PutToScope,
        Slow::DispatchCall,
        Slow::HandleTraps,
        Slow::StrictEq,
        Slow::ToBoolean,
    ]
}

impl Slow {
    /// The place of the slow path in [`slow_paths`].
    pub open spec fn place(self) -> int {
        match self {
            Slow::GetById => 0,
            Slow::PutById => 1,
            Slow::GetByVal => 2,
            Slow::PutByVal => 3,
            Slow::GetLength => 4,
            Slow::Add => 5,
            Slow::Less => 6,
            Slow::Inc => 7,
            Slow::BitOp => 8,
            Slow::ToThis => 9,
            Slow::ResolveScope => 10,
            Slow::GetFromScope => 11,
            Slow::PutToScope => 12,
            Slow::DispatchCall => 13,
            Slow::HandleTraps => 14,
            Slow::StrictEq => 15,
            Slow::ToBoolean => 16,
        }
    }

    /// How many 64-bit and, behind those, how many 32-bit parameters the slow path has.
    pub open spec fn arity(self) -> (nat, nat) {
        match self {
            Slow::GetById => (3, 2),
            Slow::PutById => (4, 2),
            Slow::GetByVal => (4, 1),
            Slow::PutByVal => (5, 1),
            Slow::GetLength => (3, 1),
            Slow::Add => (3, 0),
            Slow::Less => (3, 0),
            Slow::Inc => (2, 0),
            Slow::BitOp => (3, 0),
            Slow::ToThis => (3, 0),
            Slow::ResolveScope => (2, 1),
            Slow::GetFromScope => (3, 1),
            Slow::PutToScope => (4, 1),
            Slow::DispatchCall => (6, 1),
            Slow::HandleTraps => (1, 0),
            Slow::StrictEq => (3, 0),
            Slow::ToBoolean => (2, 0),
        }
    }

    /// The types of the parameters.
    pub open spec fn params(self) -> Seq<Ty> {
        Seq::new(
            self.arity().0 + self.arity().1,
            |i: int|
                if i < self.arity().0 {
                    Ty::I64
                } else {
                    Ty::I32
                },
        )
    }

    /// The slow path hands a value back.
    pub open spec fn has_result(self) -> bool {
        self != Slow::PutById
    }

    /// The symbol that the slow path is linked by.
    pub open spec fn symbol(self) -> Seq<char> {
        match self {
            Slow::GetById => "aotSlowGetById"@,
            Slow::PutById => "aotSlowPutById"@,
            Slow::GetByVal => "aotSlowGetByVal"@,
            Slow::PutByVal => "aotSlowPutByVal"@,
            Slow::GetLength => "aotSlowGetLength"@,
            Slow::Add => "aotSlowAdd"@,
            Slow::Less => "aotSlowLess"@,
            Slow::Inc => "aotSlowInc"@,
            Slow::BitOp => "aotSlowBitOp"@,
            Slow::ToThis => "aotSlowToThis"@,
            Slow::ResolveScope => "aotSlowResolveScope"@,
            Slow::GetFromScope => "aotSlowGetFromScope"@,
            Slow::PutToScope => "aotSlowPutToScope"@,
            Slow::DispatchCall => "aotDispatchCall"@,
            Slow::HandleTraps => "aotHandleTraps"@,
            Slow::StrictEq => "aotSlowStrictEq"@,
            Slow::ToBoolean => "aotSlowToBoolean"@,
        }
    }

    /// How the slow path is called. Under `PreserveAll` nothing is returned: a result is
    /// written through a pointer that is passed last. [`Slow::DispatchCall`] re-enters
    /// compiled code, so it is an ordinary call in both modes.
    pub open spec fn abi(self, preserve_all: bool) -> Sig {
        let result = if self.has_result() {
            seq![Ty::I64]
        } else {
            Seq::empty()
        };
        if preserve_all && self != Slow::DispatchCall {
            Sig {
                conv: CallConv::PreserveAll,
                params: self.params() + result,
                returns: Seq::empty(),
            }
        } else {
            Sig { conv: CallConv::SystemV, params: self.params(), returns: result }
        }
    }
}

/// Every slow path stands in [`slow_paths`], at its place.
pub proof fn lemma_place(s: Slow)
    ensures
        0 <= s.place() < slow_paths().len(),
        slow_paths()[s.place()] == s,
{
}

/// `wide` 64-bit parameters and `narrow` 32-bit parameters behind them.
fn params(wide: usize, narrow: usize) -> (r: Vec<Ty>)
    ensures
        r@ == Seq::new(
            (wide + narrow) as nat,
            |i: int|
                if i < wide {
                    Ty::I64
                } else {
                    Ty::I32
                },
        ),
{
    let mut r: Vec<Ty> = Vec::new();
    for i in 0..wide
        invariant
            r@.len() == i,
            forall|j: int| 0 <= j < i ==> r@[j] == Ty::I64,
    {
        r.push(Ty::I64);
    }
    for i in 0..narrow
        invariant
            r@.len() == wide + i,
            forall|j: int| 0 <= j < wide ==> r@[j] == Ty::I64,
            forall|j: int| wide <= j < wide + i ==> r@[j] == Ty::I32,
    {
        r.push(Ty::I32);
    }
    r
}

/// The types of the parameters of a slow path, whether it has a result, and its symbol.
pub fn slow_sig(s: Slow) -> (r: (Vec<Ty>, bool, &'static str))
    ensures
        r.0@ == s.params(),
        r.1 == s.has_result(),
        r.2@ == s.symbol(),
{
    match s {
        Slow::GetById => (params(3, 2), true, "aotSlowGetById"),
        Slow::PutById => (params(4, 2), false, "aotSlowPutById"),
        Slow::GetByVal => (params(4, 1), true, "aotSlowGetByVal"),
        Slow::PutByVal => (params(5, 1), true, "aotSlowPutByVal"),
        Slow::GetLength => (params(3, 1), true, "aotSlowGetLength"),
        Slow::Add => (params(3, 0), true, "aotSlowAdd"),
        Slow::Less => (params(3, 0), true, "aotSlowLess"),
        Slow::Inc => (params(2, 0), true, "aotSlowInc"),
        Slow::BitOp => (params(3, 0), true, "aotSlowBitOp"),
        Slow::ToThis => (params(3, 0), true, "aotSlowToThis"),
        Slow::ResolveScope => (params(2, 1), true, "aotSlowResolveScope"),
        Slow::GetFromScope => (params(3, 1), true, "aotSlowGetFromScope"),
        Slow::PutToScope => (params(4, 1), true, "aotSlowPutToScope"),
        Slow::DispatchCall => (params(6, 1), true, "aotDispatchCall"),
        Slow::HandleTraps => (params(1, 0), true, "aotHandleTraps"),
        Slow::StrictEq => (params(3, 0), true, "aotSlowStrictEq"),
        Slow::ToBoolean => (params(2, 0), true, "aotSlowToBoolean"),
    }
}

/// The slow paths, in the order in which they are declared.
pub fn all_slows() -> (r: Vec<Slow>)
    ensures
        r@ == slow_paths(),
{
    vec![
        Slow::GetById,
        Slow::PutById,
        Slow::GetByVal,
        Slow::PutByVal,
        Slow::GetLength,
        Slow::Add,
        Slow::Less,
        Slow::Inc,
        Slow::BitOp,
        Slow::ToThis,
        Slow::ResolveScope,
        Slow::GetFromScope,
        Slow::PutToScope,
        Slow::DispatchCall,
        Slow::HandleTraps,
        Slow::StrictEq,
        Slow::ToBoolean,
    ]
}

/// The place of a slow path in the order in which they are declared.
pub fn slow_index(s: Slow) -> (r: usize)
    ensures
        r == s.place(),
{
    match s {
        Slow::GetById => 0,
        Slow::PutById => 1,
        Slow::GetByVal => 2,
        Slow::PutByVal => 3,
        Slow::GetLength => 4,
        Slow::Add => 5,
        Slow::Less => 6,
        Slow::Inc => 7,
        Slow::BitOp => 8,
        Slow::ToThis => 9,
        Slow::ResolveScope => 10,
        Slow::GetFromScope => 11,
        Slow::PutToScope => 12,
        Slow::DispatchCall => 13,
        Slow::HandleTraps => 14,
        Slow::StrictEq => 15,
        Slow::ToBoolean => 16,
    }
}

/// How a slow path is called.
pub fn slow_abi(s: Slow, preserve_all: bool) -> (r: Prototype)
    ensures
        r@ == s.abi(preserve_all),
{
    let (mut params, has_result, _) = slow_sig(s);
    let mut results: Vec<Ty> = Vec::new();
    if preserve_all && s != Slow::DispatchCall {
        if has_result {
            params.push(Ty::I64);
        }
        let r = Prototype { conv: CallConv::PreserveAll, params, returns: results };
        assert(r@.params =~= s.abi(preserve_all).params);
        r
    } else {
        if has_result {
            results.push(Ty::I64);
        }
        let r = Prototype { conv: CallConv::SystemV, params, returns: results };
        assert(r@.returns =~= s.abi(preserve_all).returns);
        r
    }
}

/// The length of a symbol and its eighth character.
proof fn lemma_symbol_key(s: Slow) -> (key: (int, char))
    ensures
        s.symbol().len() == key.0,
        s.symbol()[7] == key.1,
        key == match s {
            Slow::GetById => (14int, 'G'),
            Slow::PutById => (14int, 'P'),
            Slow::GetByVal => (15int, 'G'),
            Slow::PutByVal => (15int, 'P'),
            Slow::GetLength => (16int, 'G'),
            Slow::Add => (10int, 'A'),
            Slow::Less => (11int, 'L'),
            Slow::Inc => (10int, 'I'),
            Slow::BitOp => (12int, 'B'),
            Slow::ToThis => (13int, 'T'),
            Slow::ResolveScope => (19int, 'R'),
            Slow::GetFromScope => (19int, 'G'),
            Slow::PutToScope => (17int, 'P'),
            Slow::DispatchCall => (15int, 'a'),
            Slow::HandleTraps => (14int, 'l'),
            Slow::StrictEq => (15int, 'S'),
            Slow::ToBoolean => (16int, 'T'),
        },
{
    match s {
        Slow::GetById => {
            reveal_strlit("aotSlowGetById");
            (14, 'G')
        },
        Slow::PutById => {
            reveal_strlit("aotSlowPutById");
            (14, 'P')
        },
        Slow::GetByVal => {
            reveal_strlit("aotSlowGetByVal");
            (15, 'G')
        },
        Slow::PutByVal => {
            reveal_strlit("aotSlowPutByVal");
            (15, 'P')
        },
        Slow::GetLength => {
            reveal_strlit("aotSlowGetLength");
            (16, 'G')
        },
        Slow::Add => {
            reveal_strlit("aotSlowAdd");
            (10, 'A')
        },
        Slow::Less => {
            reveal_strlit("aotSlowLess");
            (11, 'L')
        },
        Slow::Inc => {
            reveal_strlit("aotSlowInc");
            (10, 'I')
        },
        Slow::BitOp => {
            reveal_strlit("aotSlowBitOp");
            (12, 'B')
        },
        Slow::ToThis => {
            reveal_strlit("aotSlowToThis");
            (13, 'T')
        },
        Slow::ResolveScope => {
            reveal_strlit("aotSlowResolveScope");
            (19, 'R')
        },
        Slow::GetFromScope => {
            reveal_strlit("aotSlowGetFromScope");
            (19, 'G')
        },
        Slow::PutToScope => {
            reveal_strlit("aotSlowPutToScope");
            (17, 'P')
        },
        Slow::DispatchCall => {
            reveal_strlit("aotDispatchCall");
            (15, 'a')
        },
        Slow::HandleTraps => {
            reveal_strlit("aotHandleTraps");
            (14, 'l')
        },
        Slow::StrictEq => {
            reveal_strlit("aotSlowStrictEq");
            (15, 'S')
        },
        Slow::ToBoolean => {
            reveal_strlit("aotSlowToBoolean");
            (16, 'T')
        },
    }
}

/// No two slow paths have the same symbol.
pub proof fn symbols_are_distinct(s: Slow, t: Slow)
    requires
        s.symbol() == t.symbol(),
    ensures
        s == t,
{
    let a = lemma_symbol_key(s);
    let b = lemma_symbol_key(t);
}

/// The fourth character of the symbol of a slow path is a capital letter.
pub proof fn symbols_have_a_capital(s: Slow)
    ensures
        s.symbol().len() > 3,
        'A' <= s.symbol()[3] <= 'Z',
{
    match s {
        Slow::GetById => {
            reveal_strlit("aotSlowGetById");
        },
        Slow::PutById => {
            reveal_strlit("aotSlowPutById");
        },
        Slow::GetByVal => {
            reveal_strlit("aotSlowGetByVal");
        },
        Slow::PutByVal => {
            reveal_strlit("aotSlowPutByVal");
        },
        Slow::GetLength => {
            reveal_strlit("aotSlowGetLength");
        },
        Slow::Add => {
            reveal_strlit("aotSlowAdd");
        },
        Slow::Less => {
            reveal_strlit("aotSlowLess");
        },
        Slow::Inc => {
            reveal_strlit("aotSlowInc");
        },
        Slow::BitOp => {
            reveal_strlit("aotSlowBitOp");
        },
        Slow::ToThis => {
            reveal_strlit("aotSlowToThis");
        },
        Slow::ResolveScope => {
            reveal_strlit("aotSlowResolveScope");
        },
        Slow::GetFromScope => {
            reveal_strlit("aotSlowGetFromScope");
        },
        Slow::PutToScope => {
            reveal_strlit("aotSlowPutToScope");
        },
        Slow::DispatchCall => {
            reveal_strlit("aotDispatchCall");
        },
        Slow::HandleTraps => {
            reveal_strlit("aotHandleTraps");
        },
        Slow::StrictEq => {
            reveal_strlit("aotSlowStrictEq");
        },
        Slow::ToBoolean => {
            reveal_strlit("aotSlowToBoolean");
        },
    }
}

} // verus!
