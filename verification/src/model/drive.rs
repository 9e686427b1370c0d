use vstd::prelude::*;

verus! {

/// A synchronised drive and the cursor up to which the replica is current.
#[derive(Debug)]
pub struct Drive {
    pub id: String,
    pub page_token: String,
}

/// The mathematical value of a [`Drive`].
pub struct DriveView {
    pub id: Seq<char>,
    pub page_token: Seq<char>,
}

impl View for Drive {
    type V = DriveView;

    open spec fn view(&self) -> DriveView {
        DriveView { id: self.id@, page_token: self.page_token@ }
    }
}

impl Clone for Drive {
    fn clone(&self) -> (r: Self)
        ensures
            r == *self,
    {
        Drive { id: self.id.clone(), page_token: self.page_token.clone() }
    }
}

/// A drive row about to be inserted, borrowed from the caller.
#[derive(Debug)]
pub struct NewDrive<'a> {
    pub id: &'a str,
    pub page_token: &'a str,
}

impl<'a> NewDrive<'a> {
    /// The row that this insertion stores.
    pub open spec fn row(&self) -> DriveView {
        DriveView { id: self.id@, page_token: self.page_token@ }
    }

    /// Builds the owned row.
    pub fn to_drive(&self) -> (r: Drive)
        ensures
            r@ == self.row(),
    {
        Drive { id: self.id.to_owned(), page_token: self.page_token.to_owned() }
    }
}

} // verus!
