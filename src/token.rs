use vstd::prelude::*;

verus! {

/// One unit of a decoded document.
///
/// `Null` stands for "no token" inside the tag scanners; the tokenizer never
/// emits it.
#[derive(Clone, Copy, Debug, PartialEq, Eq, Structural)]
pub enum Token {
    Null,
    Printable(char),
    EndSection,
    FileHeader,
    Underline,
    Indent,
    NewLine,
    AlignCenter,
    AlignLeft,
    NewPage,
    AGrave,
    EGrave,
    EAcute,
    IGrave,
    OGrave,
    UGrave,
}

} // verus!
