//! The full listing of a drive, page by page.

use vstd::prelude::*;
use crate::fetch::{
    decode_items,
    decoded_items,
    item_records_view,
    items_view,
    Error,
    Fetcher,
    Item,
    ItemRecord,
    ItemRecordView,
    ItemView,
};
use crate::model::folder::{opt_clone, opt_view};
use crate::text::{among, distinct, strs};

verus! {

/// Where the listing is asked for.
pub const URL: &'static str = "https://www.googleapis.com/drive/v3/files";

/// The fields of a page of the listing that are asked for.
pub const FIELDS: &'static str =
    "nextPageToken,files(id,driveId,name,parents,md5Checksum,size,trashed)";

/// The number of items that one page may hold.
pub const PAGE_SIZE: usize = 1000;

/// The body of items that is listed: those of one drive.
pub const CORPORA: &'static str = "drive";

/// The parameters of the request for one page of the listing.
#[derive(Debug)]
pub struct Query {
    pub drive_id: String,
    pub page_token: Option<String>,
    pub fields: String,
    pub page_size: usize,
    pub corpora: String,
    pub all_drives: bool,
    pub supports_all_drives: bool,
}

/// One page of the listing, as the wire delivers it.
#[derive(Debug)]
pub struct Response {
    pub items: Vec<ItemRecord>,
    pub next_page_token: Option<String>,
}

/// The mathematical value of a [`Response`].
pub struct ResponseView {
    pub items: Seq<ItemRecordView>,
    pub next_page_token: Option<Seq<char>>,
}

impl View for Response {
    type V = ResponseView;

    open spec fn view(&self) -> ResponseView {
        ResponseView {
            items: item_records_view(self.items@),
            next_page_token: opt_view(self.next_page_token),
        }
    }
}

/// The state of reading the listing of one drive: the cursor of the page
/// to ask for next, none for the first page, the cursors asked for so far,
/// that one included, and the items of the pages read so far.
pub struct ListingPager {
    drive_id: String,
    page_token: Option<String>,
    asked: Vec<String>,
    all_items: Vec<Item>,
}

/// The mathematical value of a [`ListingPager`].
pub struct ListingPagerView {
    pub drive_id: Seq<char>,
    pub page_token: Option<Seq<char>>,
    pub asked: Seq<Seq<char>>,
    pub all_items: Seq<ItemView>,
}

impl ListingPagerView {
    /// No cursor was asked for twice, and the cursor to ask for next, if
    /// there is one, is the last of those asked for.
    pub open spec fn fresh(self) -> bool {
        distinct(self.asked) && (match self.page_token {
            Some(token) => self.asked.len() > 0 && self.asked.last() == token,
            None => self.asked.len() == 0,
        })
    }
}

impl View for ListingPager {
    type V = ListingPagerView;

    closed spec fn view(&self) -> ListingPagerView {
        ListingPagerView {
            drive_id: self.drive_id@,
            page_token: opt_view(self.page_token),
            asked: strs(self.asked@),
            all_items: items_view(self.all_items@),
        }
    }
}

/// What a page leaves of the reading of the listing.
pub enum Paged {
    /// The listing has more: ask for the next page.
    More(ListingPager),
    /// The listing is complete: all its items, in order.
    Done(Vec<Item>),
}

/// The mathematical value of [`Paged`].
pub enum PagedView {
    More(ListingPagerView),
    Done(Seq<ItemView>),
}

impl View for Paged {
    type V = PagedView;

    open spec fn view(&self) -> PagedView {
        match self {
            Paged::More(pager) => PagedView::More(pager@),
            Paged::Done(items) => PagedView::Done(items_view(items@)),
        }
    }
}

/// What a page does to the reading of the listing. A page whose items do
/// not decode fails the reading. The items of the page follow those read
/// before. A page without a next page cursor ends the listing. Otherwise
/// the reading goes on from that cursor, which must be one that was not
/// asked for before: a cursor that was asked for already would have the
/// same page asked for without end, and fails the reading.
pub open spec fn absorbed(p: ListingPagerView, page: ResponseView) -> Result<PagedView, Error> {
    match decoded_items(page.items) {
        Err(_) => Err(Error::DeserialisationError),
        Ok(items) => {
            let all = p.all_items + items;
            match page.next_page_token {
                Some(next) => if p.asked.contains(next) {
                    Err(Error::DeserialisationError)
                } else {
                    Ok(
                        PagedView::More(
                            ListingPagerView {
                                drive_id: p.drive_id,
                                page_token: Some(next),
                                asked: p.asked.push(next),
                                all_items: all,
                            },
                        ),
                    )
                },
                None => Ok(PagedView::Done(all)),
            }
        },
    }
}

/// No page of the listing is asked for twice. Where the reading goes on
/// after a page, the cursor to ask for next is none of those asked for
/// before, so no request of a reading is the request of an earlier one.
pub proof fn lemma_no_page_twice(p: ListingPagerView, page: ResponseView)
    requires
        p.fresh(),
        absorbed(p, page) matches Ok(PagedView::More(_)),
    ensures
        ({
            let q = absorbed(p, page)->Ok_0->More_0;
            &&& q.fresh()
            &&& q.page_token matches Some(next)
            &&& q.asked == p.asked.push(next)
            &&& !p.asked.contains(next)
            &&& q.page_token != p.page_token
            &&& q.drive_id == p.drive_id
        }),
{
    let q = absorbed(p, page)->Ok_0->More_0;
    if p.page_token is Some {
        assert(p.asked[p.asked.len() - 1] == p.page_token.unwrap());
    }
    assert forall|a: int, b: int| 0 <= a < b < q.asked.len() implies q.asked[a] != q.asked[b] by {
        if b == p.asked.len() {
            assert(p.asked[a] == q.asked[a]);
        } else {
            assert(p.asked[a] == q.asked[a] && p.asked[b] == q.asked[b]);
        }
    }
}

impl ListingPager {
    /// Starts reading the listing of a drive.
    pub fn new(drive_id: &str) -> (r: ListingPager)
        ensures
            r@ == (ListingPagerView {
                drive_id: drive_id@,
                page_token: None,
                asked: Seq::empty(),
                all_items: Seq::empty(),
            }),
            r@.fresh(),
    {
        let r = ListingPager {
            drive_id: drive_id.to_owned(),
            page_token: None,
            asked: Vec::new(),
            all_items: Vec::new(),
        };
        proof {
            assert(r@.all_items =~= Seq::empty());
            assert(r@.asked =~= Seq::empty());
        }
        r
    }

    /// The parameters of the request for the next page.
    pub fn query(&self) -> (q: Query)
        ensures
            q.drive_id@ == self@.drive_id,
            opt_view(q.page_token) == self@.page_token,
            q.fields@ == FIELDS@,
            q.page_size == PAGE_SIZE,
            q.corpora@ == CORPORA@,
            q.all_drives,
            q.supports_all_drives,
    {
        Query {
            drive_id: self.drive_id.clone(),
            page_token: opt_clone(&self.page_token),
            fields: FIELDS.to_owned(),
            page_size: PAGE_SIZE,
            corpora: CORPORA.to_owned(),
            all_drives: true,
            supports_all_drives: true,
        }
    }

    /// Takes in the page that the request brought.
    pub fn absorb(self, page: &Response) -> (r: Result<Paged, Error>)
        ensures
            match absorbed(self@, page@) {
                Ok(next) => r matches Ok(paged) && paged@ == next,
                Err(e) => r == Err::<Paged, Error>(e),
            },
    {
        let items = match decode_items(&page.items) {
            Ok(items) => items,
            Err(_) => {
                return Err(Error::DeserialisationError);
            },
        };
        let mut all_items = self.all_items;
        let ghost before = items_view(all_items@);
        let ghost added = items_view(items@);
        let mut i: usize = 0;
        while i < items.len()
            invariant
                i <= items.len(),
                added == items_view(items@),
                items_view(all_items@) == before + added.take(i as int),
            decreases items.len() - i,
        {
            let ghost prior = items_view(all_items@);
            all_items.push(items[i].clone());
            proof {
                assert(items_view(all_items@) =~= prior.push(items[i as int]@));
                assert(added.take(i + 1) =~= added.take(i as int).push(added[i as int]));
                assert(items_view(all_items@) =~= before + added.take(i + 1));
            }
            i += 1;
        }
        proof {
            assert(added.take(items.len() as int) =~= added);
        }
        match &page.next_page_token {
            Some(next) => {
                if among(&self.asked, next) {
                    return Err(Error::DeserialisationError);
                }
                let mut asked = self.asked;
                let ghost before = strs(asked@);
                asked.push(next.clone());
                proof {
                    assert(strs(asked@) =~= before.push(next@));
                }
                Ok(
                    Paged::More(
                        ListingPager {
                            drive_id: self.drive_id,
                            page_token: Some(next.clone()),
                            asked,
                            all_items,
                        },
                    ),
                )
            },
            None => Ok(Paged::Done(all_items)),
        }
    }
}

impl Fetcher {
    /// Starts reading all the items of a drive.
    pub fn all_files(&self, drive_id: &str) -> (r: ListingPager)
        ensures
            r@ == (ListingPagerView {
                drive_id: drive_id@,
                page_token: None,
                asked: Seq::empty(),
                all_items: Seq::empty(),
            }),
            r@.fresh(),
    {
        ListingPager::new(drive_id)
    }
}

} // verus!
