//! What the tool says about itself.

use vstd::prelude::*;

verus! {

/// The text shown with the tool's help: its name and version, then what it
/// is for.
pub open spec fn about_text() -> Seq<char> {
    "zippy"@ + " v"@ + "0.1.0"@ + "\n"@ + "zippy"@
        + " is a simple tool for de/compressing zip files.\n"@
        + "It has the following features:\n"@ + "- Installable using `cargo install zippy`\n"@
        + "- Easy to use"@
}

/// The text shown with the tool's help.
pub fn about() -> (r: String)
    ensures
        r@ == about_text(),
{
    let mut buf = String::new();
    buf.append("zippy");
    buf.append(" v");
    buf.append("0.1.0");
    buf.append("\n");
    buf.append("zippy");
    buf.append(" is a simple tool for de/compressing zip files.\n");
    buf.append("It has the following features:\n");
    buf.append("- Installable using `cargo install zippy`\n");
    buf.append("- Easy to use");
    assert(buf@ =~= about_text());
    buf
}

} // verus!
