use vstd::prelude::*;

verus! {

/// The closed set of concrete instance types living behind the capability
/// dispatch protocol. `Num` carries one integer and opts into every
/// capability group; `Opaque` opts into none, so each dispatch point reports
/// an unsupported operation for it.
#[derive(Clone, Copy, Debug, PartialEq, Eq, Structural)]
pub enum ObjInstance {
    Num(i64),
    Opaque,
}

} // verus!
