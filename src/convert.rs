//! Conversions of `UBig` from primitive integer types.

use crate::radix::{word_base, Word};
use crate::ubig::{limbs_value, words_value, Buffer, UBig};
use vstd::prelude::*;

verus! {

impl UBig {
    /// The number of a `u128`, in one word or two.
    pub fn from_u128(x: u128) -> (r: UBig)
        ensures
            r.wf(),
            r.value() == x,
    {
        if x <= Word::MAX as u128 {
            UBig::from_word(x as Word)
        } else {
            let low = #[verifier::truncate] (x as Word);
            let high = #[verifier::truncate] ((x >> 64) as Word);
            proof {
                assert(x == low + high * 0x1_0000_0000_0000_0000u128) by (bit_vector)
                    requires
                        low == x as u64,
                        high == (x >> 64) as u64,
                ;
            }
            let mut buffer = Buffer::allocate(2);
            buffer.push(low);
            buffer.push(high);
            proof {
                let ws = buffer.view_words();
                assert(ws.drop_first() =~= seq![high]);
                assert(seq![high].drop_first() =~= Seq::<Word>::empty());
                assert(limbs_value(Seq::<Word>::empty(), word_base()) == 0);
                assert(limbs_value(seq![high], word_base()) == high);
                assert(words_value(ws) == low + word_base() * high);
            }
            UBig::from_buffer(buffer)
        }
    }

    /// The number of a `usize`.
    pub fn from_usize(x: usize) -> (r: UBig)
        ensures
            r.wf(),
            r.value() == x,
    {
        UBig::from_word(x as Word)
    }
}

impl From<u8> for UBig {
    fn from(x: u8) -> (r: UBig)
        ensures
            r.wf(),
            r.value() == x,
    {
        UBig::from_word(x as Word)
    }
}

impl vstd::std_specs::convert::FromSpecImpl<u8> for UBig {
    open spec fn obeys_from_spec() -> bool {
        false
    }

    open spec fn from_spec(v: u8) -> UBig {
        arbitrary()
    }
}

impl From<u16> for UBig {
    fn from(x: u16) -> (r: UBig)
        ensures
            r.wf(),
            r.value() == x,
    {
        UBig::from_word(x as Word)
    }
}

impl vstd::std_specs::convert::FromSpecImpl<u16> for UBig {
    open spec fn obeys_from_spec() -> bool {
        false
    }

    open spec fn from_spec(v: u16) -> UBig {
        arbitrary()
    }
}

impl From<u32> for UBig {
    fn from(x: u32) -> (r: UBig)
        ensures
            r.wf(),
            r.value() == x,
    {
        UBig::from_word(x as Word)
    }
}

impl vstd::std_specs::convert::FromSpecImpl<u32> for UBig {
    open spec fn obeys_from_spec() -> bool {
        false
    }

    open spec fn from_spec(v: u32) -> UBig {
        arbitrary()
    }
}

impl From<u64> for UBig {
    fn from(x: u64) -> (r: UBig)
        ensures
            r.wf(),
            r.value() == x,
    {
        UBig::from_word(x)
    }
}

impl vstd::std_specs::convert::FromSpecImpl<u64> for UBig {
    open spec fn obeys_from_spec() -> bool {
        false
    }

    open spec fn from_spec(v: u64) -> UBig {
        arbitrary()
    }
}

impl From<u128> for UBig {
    fn from(x: u128) -> (r: UBig)
        ensures
            r.wf(),
            r.value() == x,
    {
        UBig::from_u128(x)
    }
}

impl vstd::std_specs::convert::FromSpecImpl<u128> for UBig {
    open spec fn obeys_from_spec() -> bool {
        false
    }

    open spec fn from_spec(v: u128) -> UBig {
        arbitrary()
    }
}

impl From<usize> for UBig {
    fn from(x: usize) -> (r: UBig)
        ensures
            r.wf(),
            r.value() == x,
    {
        UBig::from_usize(x)
    }
}

impl vstd::std_specs::convert::FromSpecImpl<usize> for UBig {
    open spec fn obeys_from_spec() -> bool {
        false
    }

    open spec fn from_spec(v: usize) -> UBig {
        arbitrary()
    }
}

impl From<bool> for UBig {
    fn from(b: bool) -> (r: UBig)
        ensures
            r.wf(),
            r.value() == (if b {
                1nat
            } else {
                0nat
            }),
    {
        UBig::from_word(if b {
            1
        } else {
            0
        })
    }
}

impl vstd::std_specs::convert::FromSpecImpl<bool> for UBig {
    open spec fn obeys_from_spec() -> bool {
        false
    }

    open spec fn from_spec(v: bool) -> UBig {
        arbitrary()
    }
}

impl From<char> for UBig {
    fn from(c: char) -> (r: UBig)
        ensures
            r.wf(),
            r.value() == #[verifier::truncate] (c as u32),
    {
        UBig::from_word(#[verifier::truncate] (c as u32) as Word)
    }
}

impl vstd::std_specs::convert::FromSpecImpl<char> for UBig {
    open spec fn obeys_from_spec() -> bool {
        false
    }

    open spec fn from_spec(v: char) -> UBig {
        arbitrary()
    }
}

impl From<Buffer> for UBig {
    fn from(buffer: Buffer) -> (r: UBig)
        ensures
            r.wf(),
            r.value() == words_value(buffer.view_words()),
    {
        UBig::from_buffer(buffer)
    }
}

impl vstd::std_specs::convert::FromSpecImpl<Buffer> for UBig {
    open spec fn obeys_from_spec() -> bool {
        false
    }

    open spec fn from_spec(v: Buffer) -> UBig {
        arbitrary()
    }
}

impl TryFrom<i8> for UBig {
    type Error = core::num::TryFromIntError;

    fn try_from(x: i8) -> (r: Result<UBig, core::num::TryFromIntError>)
        ensures
            r is Ok <==> x >= 0,
            r matches Ok(u) ==> u.wf() && u.value() == x,
    {
        match <u8 as TryFrom<i8>>::try_from(x) {
            Ok(y) => Ok(UBig::from_word(y as Word)),
            Err(e) => Err(e),
        }
    }
}

impl vstd::std_specs::convert::TryFromSpecImpl<i8> for UBig {
    open spec fn obeys_try_from_spec() -> bool {
        false
    }

    open spec fn try_from_spec(v: i8) -> Result<UBig, core::num::TryFromIntError> {
        arbitrary()
    }
}

impl TryFrom<i16> for UBig {
    type Error = core::num::TryFromIntError;

    fn try_from(x: i16) -> (r: Result<UBig, core::num::TryFromIntError>)
        ensures
            r is Ok <==> x >= 0,
            r matches Ok(u) ==> u.wf() && u.value() == x,
    {
        match <u16 as TryFrom<i16>>::try_from(x) {
            Ok(y) => Ok(UBig::from_word(y as Word)),
            Err(e) => Err(e),
        }
    }
}

impl vstd::std_specs::convert::TryFromSpecImpl<i16> for UBig {
    open spec fn obeys_try_from_spec() -> bool {
        false
    }

    open spec fn try_from_spec(v: i16) -> Result<UBig, core::num::TryFromIntError> {
        arbitrary()
    }
}

impl TryFrom<i32> for UBig {
    type Error = core::num::TryFromIntError;

    fn try_from(x: i32) -> (r: Result<UBig, core::num::TryFromIntError>)
        ensures
            r is Ok <==> x >= 0,
            r matches Ok(u) ==> u.wf() && u.value() == x,
    {
        match <u32 as TryFrom<i32>>::try_from(x) {
            Ok(y) => Ok(UBig::from_word(y as Word)),
            Err(e) => Err(e),
        }
    }
}

impl vstd::std_specs::convert::TryFromSpecImpl<i32> for UBig {
    open spec fn obeys_try_from_spec() -> bool {
        false
    }

    open spec fn try_from_spec(v: i32) -> Result<UBig, core::num::TryFromIntError> {
        arbitrary()
    }
}

impl TryFrom<i64> for UBig {
    type Error = core::num::TryFromIntError;

    fn try_from(x: i64) -> (r: Result<UBig, core::num::TryFromIntError>)
        ensures
            r is Ok <==> x >= 0,
            r matches Ok(u) ==> u.wf() && u.value() == x,
    {
        match <u64 as TryFrom<i64>>::try_from(x) {
            Ok(y) => Ok(UBig::from_word(y)),
            Err(e) => Err(e),
        }
    }
}

impl vstd::std_specs::convert::TryFromSpecImpl<i64> for UBig {
    open spec fn obeys_try_from_spec() -> bool {
        false
    }

    open spec fn try_from_spec(v: i64) -> Result<UBig, core::num::TryFromIntError> {
        arbitrary()
    }
}

impl TryFrom<i128> for UBig {
    type Error = core::num::TryFromIntError;

    fn try_from(x: i128) -> (r: Result<UBig, core::num::TryFromIntError>)
        ensures
            r is Ok <==> x >= 0,
            r matches Ok(u) ==> u.wf() && u.value() == x,
    {
        match <u128 as TryFrom<i128>>::try_from(x) {
            Ok(y) => Ok(UBig::from_u128(y)),
            Err(e) => Err(e),
        }
    }
}

impl vstd::std_specs::convert::TryFromSpecImpl<i128> for UBig {
    open spec fn obeys_try_from_spec() -> bool {
        false
    }

    open spec fn try_from_spec(v: i128) -> Result<UBig, core::num::TryFromIntError> {
        arbitrary()
    }
}

impl TryFrom<isize> for UBig {
    type Error = core::num::TryFromIntError;

    fn try_from(x: isize) -> (r: Result<UBig, core::num::TryFromIntError>)
        ensures
            r is Ok <==> x >= 0,
            r matches Ok(u) ==> u.wf() && u.value() == x,
    {
        match <usize as TryFrom<isize>>::try_from(x) {
            Ok(y) => Ok(UBig::from_usize(y)),
            Err(e) => Err(e),
        }
    }
}

impl vstd::std_specs::convert::TryFromSpecImpl<isize> for UBig {
    open spec fn obeys_try_from_spec() -> bool {
        false
    }

    open spec fn try_from_spec(v: isize) -> Result<UBig, core::num::TryFromIntError> {
        arbitrary()
    }
}

} // verus!
