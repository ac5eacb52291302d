use vstd::prelude::*;

verus! {

/// The output file used when the configuration names none.
pub fn default_output_file() -> (r: String)
    ensures
        r@ == "output.png"@,
{
    "output.png".to_owned()
}

} // verus!
