//! The change feed, page by page.

use vstd::prelude::*;
use crate::fetch::{
    change_records_view,
    changes_view,
    decode_changes,
    decoded_changes,
    Change,
    ChangeRecord,
    ChangeRecordView,
    ChangeView,
    Error,
    Fetcher,
};
use crate::model::folder::opt_view;
use crate::text::{among, distinct, strs};

verus! {

/// Where the change feed is asked for.
pub const URL: &'static str = "https://www.googleapis.com/drive/v3/changes";

/// The fields of a page of the change feed that are asked for.
pub const FIELDS: &'static str =
    "nextPageToken,newStartPageToken,changes(driveId,fileId,removed,drive(id,name),file(id,driveId,name,parents,md5Checksum,size,trashed))";

/// The number of changes that one page may hold.
pub const PAGE_SIZE: usize = 1000;

/// The parameters of the request for one page of the change feed.
#[derive(Debug)]
pub struct Query {
    pub drive_id: String,
    pub page_token: String,
    pub fields: String,
    pub page_size: usize,
    pub all_drives: bool,
    pub supports_all_drives: bool,
}

/// One page of the change feed, as the wire delivers it.
#[derive(Debug)]
pub struct Response {
    pub changes: Vec<ChangeRecord>,
    pub next_page_token: Option<String>,
    pub new_start_page_token: Option<String>,
}

/// The mathematical value of a [`Response`].
pub struct ResponseView {
    pub changes: Seq<ChangeRecordView>,
    pub next_page_token: Option<Seq<char>>,
    pub new_start_page_token: Option<Seq<char>>,
}

impl View for Response {
    type V = ResponseView;

    open spec fn view(&self) -> ResponseView {
        ResponseView {
            changes: change_records_view(self.changes@),
            next_page_token: opt_view(self.next_page_token),
            new_start_page_token: opt_view(self.new_start_page_token),
        }
    }
}

/// The state of reading the change feed of one drive: the cursor of the
/// page to ask for next, the cursors asked for so far, that one included,
/// and the changes of the pages read so far.
pub struct ChangesPager {
    drive_id: String,
    page_token: String,
    asked: Vec<String>,
    all_changes: Vec<Change>,
}

/// The mathematical value of a [`ChangesPager`].
pub struct ChangesPagerView {
    pub drive_id: Seq<char>,
    pub page_token: Seq<char>,
    pub asked: Seq<Seq<char>>,
    pub all_changes: Seq<ChangeView>,
}

impl ChangesPagerView {
    /// No cursor was asked for twice, and the cursor to ask for next is the
    /// last of those asked for.
    pub open spec fn fresh(self) -> bool {
        distinct(self.asked) && self.asked.len() > 0 && self.asked.last() == self.page_token
    }
}

impl View for ChangesPager {
    type V = ChangesPagerView;

    closed spec fn view(&self) -> ChangesPagerView {
        ChangesPagerView {
            drive_id: self.drive_id@,
            page_token: self.page_token@,
            asked: strs(self.asked@),
            all_changes: changes_view(self.all_changes@),
        }
    }
}

/// What a page leaves of the reading of the feed.
pub enum Paged {
    /// The feed has more: ask for the next page.
    More(ChangesPager),
    /// The feed is drained: all its changes, in order, and the cursor from
    /// which the next reading starts.
    Done(Vec<Change>, String),
}

/// The mathematical value of [`Paged`].
pub enum PagedView {
    More(ChangesPagerView),
    Done(Seq<ChangeView>, Seq<char>),
}

impl View for Paged {
    type V = PagedView;

    open spec fn view(&self) -> PagedView {
        match self {
            Paged::More(pager) => PagedView::More(pager@),
            Paged::Done(changes, token) => PagedView::Done(changes_view(changes@), token@),
        }
    }
}

/// What a page does to the reading of the feed. A page whose changes do
/// not decode fails the reading. The changes of the page follow those read
/// before. A page with a new start cursor ends the feed, and that cursor
/// is the one to keep. Otherwise the reading goes on from the next page
/// cursor, which must be one that was not asked for before: a page that
/// names no cursor at all, or one that was asked for already, would have
/// the same page asked for without end, and fails the reading.
pub open spec fn absorbed(p: ChangesPagerView, page: ResponseView) -> Result<PagedView, Error> {
    match decoded_changes(page.changes) {
        Err(_) => Err(Error::DeserialisationError),
        Ok(changes) => {
            let all = p.all_changes + changes;
            match (page.new_start_page_token, page.next_page_token) {
                (Some(token), _) => Ok(PagedView::Done(all, token)),
                (None, Some(next)) => if p.asked.contains(next) {
                    Err(Error::DeserialisationError)
                } else {
                    Ok(
                        PagedView::More(
                            ChangesPagerView {
                                drive_id: p.drive_id,
                                page_token: next,
                                asked: p.asked.push(next),
                                all_changes: all,
                            },
                        ),
                    )
                },
                (None, None) => Err(Error::DeserialisationError),
            }
        },
    }
}

/// No page of the change feed is asked for twice. Where the reading goes
/// on after a page, the cursor to ask for next is none of those asked for
/// before, so no request of a reading is the request of an earlier one.
pub proof fn lemma_no_page_twice(p: ChangesPagerView, page: ResponseView)
    requires
        p.fresh(),
        absorbed(p, page) matches Ok(PagedView::More(_)),
    ensures
        ({
            let q = absorbed(p, page)->Ok_0->More_0;
            &&& q.fresh()
            &&& q.asked == p.asked.push(q.page_token)
            &&& !p.asked.contains(q.page_token)
            &&& q.page_token != p.page_token
            &&& q.drive_id == p.drive_id
        }),
{
    let q = absorbed(p, page)->Ok_0->More_0;
    assert(p.asked[p.asked.len() - 1] == p.page_token);
    assert forall|a: int, b: int| 0 <= a < b < q.asked.len() implies q.asked[a] != q.asked[b] by {
        if b == p.asked.len() {
            assert(p.asked[a] == q.asked[a]);
        } else {
            assert(p.asked[a] == q.asked[a] && p.asked[b] == q.asked[b]);
        }
    }
}

impl ChangesPager {
    /// Starts reading the change feed of a drive from a cursor.
    pub fn new(drive_id: &str, page_token: &str) -> (r: ChangesPager)
        ensures
            r@ == (ChangesPagerView {
                drive_id: drive_id@,
                page_token: page_token@,
                asked: seq![page_token@],
                all_changes: Seq::empty(),
            }),
            r@.fresh(),
    {
        let mut asked: Vec<String> = Vec::new();
        asked.push(page_token.to_owned());
        let r = ChangesPager {
            drive_id: drive_id.to_owned(),
            page_token: page_token.to_owned(),
            asked,
            all_changes: Vec::new(),
        };
        proof {
            assert(r@.all_changes =~= Seq::empty());
            assert(r@.asked =~= seq![page_token@]);
        }
        r
    }

    /// The parameters of the request for the next page.
    pub fn query(&self) -> (q: Query)
        ensures
            q.drive_id@ == self@.drive_id,
            q.page_token@ == self@.page_token,
            q.fields@ == FIELDS@,
            q.page_size == PAGE_SIZE,
            q.all_drives,
            q.supports_all_drives,
    {
        Query {
            drive_id: self.drive_id.clone(),
            page_token: self.page_token.clone(),
            fields: FIELDS.to_owned(),
            page_size: PAGE_SIZE,
            all_drives: true,
            supports_all_drives: true,
        }
    }

    /// Takes in the page that the request brought.
    pub fn absorb(self, page: &Response) -> (r: Result<Paged, Error>)
        ensures
            match absorbed(self@, page@) {
                Ok(next) => r matches Ok(paged) && paged@ == next,
                Err(e) => r == Err::<Paged, Error>(e),
            },
    {
        let changes = match decode_changes(&page.changes) {
            Ok(changes) => changes,
            Err(_) => {
                return Err(Error::DeserialisationError);
            },
        };
        let mut all_changes = self.all_changes;
        let ghost before = changes_view(all_changes@);
        let ghost added = changes_view(changes@);
        let mut i: usize = 0;
        while i < changes.len()
            invariant
                i <= changes.len(),
                added == changes_view(changes@),
                changes_view(all_changes@) == before + added.take(i as int),
            decreases changes.len() - i,
        {
            let ghost prior = changes_view(all_changes@);
            all_changes.push(changes[i].clone());
            proof {
                assert(changes_view(all_changes@) =~= prior.push(changes[i as int]@));
                assert(added.take(i + 1) =~= added.take(i as int).push(added[i as int]));
                assert(changes_view(all_changes@) =~= before + added.take(i + 1));
            }
            i += 1;
        }
        proof {
            assert(added.take(changes.len() as int) =~= added);
        }
        match (&page.new_start_page_token, &page.next_page_token) {
            (Some(start_page_token), _) => Ok(Paged::Done(all_changes, start_page_token.clone())),
            (None, Some(next_page_token)) => {
                if among(&self.asked, next_page_token) {
                    return Err(Error::DeserialisationError);
                }
                let mut asked = self.asked;
                let ghost before = strs(asked@);
                asked.push(next_page_token.clone());
                proof {
                    assert(strs(asked@) =~= before.push(next_page_token@));
                }
                Ok(
                    Paged::More(
                        ChangesPager {
                            drive_id: self.drive_id,
                            page_token: next_page_token.clone(),
                            asked,
                            all_changes,
                        },
                    ),
                )
            },
            (None, None) => Err(Error::DeserialisationError),
        }
    }
}

impl Fetcher {
    /// Starts reading the changes of a drive since a cursor.
    pub fn changes(&self, drive_id: &str, page_token: &str) -> (r: ChangesPager)
        ensures
            r@ == (ChangesPagerView {
                drive_id: drive_id@,
                page_token: page_token@,
                asked: seq![page_token@],
                all_changes: Seq::empty(),
            }),
            r@.fresh(),
    {
        ChangesPager::new(drive_id, page_token)
    }
}

} // verus!
