use vstd::prelude::*;

verus! {

/// The import line put at the top of each user script.
pub open spec fn import_stmt() -> Seq<char> {
    "import { createCompletion, __parseConfig } from 'virtual:env';\n"@
}

/// The import line put at the top of each user script.
pub fn generate_import_stmt() -> (r: String)
    ensures
        r@ == import_stmt(),
{
    String::from_str("import { createCompletion, __parseConfig } from 'virtual:env';\n")
}

} // verus!
