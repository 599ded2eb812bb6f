use vstd::prelude::*;

verus! {

/// One answer to a query: which dictionary answered, under which headword,
/// and the definition filed there. The three borrow from the dictionary.
#[derive(Debug)]
pub struct ConsultResult<'a> {
    pub dict: &'a str,
    pub word: &'a str,
    pub definition: &'a str,
}

/// What a [`ConsultResult`] says, as text.
pub struct ConsultResultView {
    pub dict: Seq<char>,
    pub word: Seq<char>,
    pub definition: Seq<char>,
}

impl<'a> View for ConsultResult<'a> {
    type V = ConsultResultView;

    open spec fn view(&self) -> ConsultResultView {
        ConsultResultView { dict: self.dict@, word: self.word@, definition: self.definition@ }
    }
}

} // verus!
