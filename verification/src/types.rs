//! Helpers for the arguments of the database functions: defaults for missing
//! values and the error for a missing required one.
use vstd::prelude::*;
use vstd::string::StringExecFns;

verus! {

/// The context name, the empty name when none was given.
pub fn ctx(c: Option<&str>) -> (name: &str)
    ensures
        c matches Some(s) ==> name == s,
        c is None ==> name@ == Seq::<char>::empty(),
{
    match c {
        Some(s) => s,
        None => {
            proof {
                reveal_strlit("");
            }
            ""
        },
    }
}

/// The message of the error for the missing argument `name`.
pub open spec fn missing_argument_message(name: Seq<char>) -> Seq<char> {
    name + " should not be null"@
}

/// The value of a required argument, or an error naming the argument when it is
/// missing.
pub fn require<T>(v: Option<T>, name: &str) -> (result: Result<T, String>)
    ensures
        v matches Some(x) ==> result == Ok::<T, String>(x),
        v is None ==> (result matches Err(msg) && msg@ == missing_argument_message(name@)),
{
    match v {
        Some(x) => Ok(x),
        None => {
            let mut msg = name.to_owned();
            msg.append(" should not be null");
            Err(msg)
        },
    }
}

/// A timeout given as a signed number, read as an unsigned one: a negative value
/// wraps around, as a cast does.
pub fn timeout_u64(t: Option<i64>) -> (timeout: Option<u64>)
    ensures
        t is None ==> timeout is None,
        t matches Some(x) ==> (timeout matches Some(y) && (x >= 0 ==> y == x) && (x < 0 ==> y
            == x + 0x1_0000_0000_0000_0000)),
{
    match t {
        Some(x) => {
            let y = x as u64;
            proof {
                assert(x >= 0 ==> y == x) by (bit_vector)
                    requires
                        y == x as u64,
                ;
                assert(x < 0 ==> y == x + 0x1_0000_0000_0000_0000) by (bit_vector)
                    requires
                        y == x as u64,
                ;
            }
            Some(y)
        },
        None => None,
    }
}

} // verus!
