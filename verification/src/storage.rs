//! The banner inventory: loading banners and serving them by category.

use crate::util::cumulative_weights::CumulativeWeights;
use crate::util::cumulative_weights::Table;
use crate::util::positions::ascending;
use crate::util::positions::lemma_ascending_unique;
use crate::util::positions::lemma_positions_where;
use crate::util::positions::lemma_retained;
use crate::util::positions::merge_positions;
use crate::util::positions::non_decreasing;
use crate::util::positions::positions_where;
use crate::util::positions::retain_available;
use crate::util::positions::retained;
use std::sync::atomic::AtomicU32;
use std::sync::atomic::Ordering;
use vstd::hash_map::StringHashMap;
use vstd::prelude::*;
use vstd::string::StringExecFns;

verus! {

/// Why a banner was refused at loading.
#[derive(Debug, Clone, Copy, PartialEq, Eq, Structural)]
pub enum StoreError {
    /// The banner has no URL.
    IllegalUrl,
    /// The banner may not be shown even once.
    IllegalShowsAmount,
    /// The banner belongs to no category.
    EmptyCategories,
}

impl StoreError {
    /// The message that explains the error.
    pub fn describe(&self) -> (message: String)
        ensures
            message@ == match self {
                StoreError::IllegalUrl => "Illegal URL"@,
                StoreError::IllegalShowsAmount => "Shows amount must be positive"@,
                StoreError::EmptyCategories => "Banner must have at least one category"@,
            },
    {
        match self {
            StoreError::IllegalUrl => String::from_str("Illegal URL"),
            StoreError::IllegalShowsAmount => String::from_str("Shows amount must be positive"),
            StoreError::EmptyCategories => String::from_str(
                "Banner must have at least one category",
            ),
        }
    }
}

/// The page that shows the banner at `url`: the URL, as it is, between a
/// fixed opening and a fixed closing.
pub open spec fn html_of(url: Seq<char>) -> Seq<char> {
    "<html><body><img src=\""@ + url + "\"/></body></html>"@
}

/// The shows left after one more show, where one is left to take.
pub open spec fn shows_left_after(left: u32) -> Option<u32> {
    if left > 0 {
        Some((left - 1) as u32)
    } else {
        None
    }
}

/// Whether a counter that reads `left` has a show to give.
pub fn has_show(left: u32) -> (available: bool)
    ensures
        available == (shows_left_after(left) is Some),
{
    left > 0
}

/// The update that a show applies to the shows left: one less, unless none
/// is left.
pub fn next_shows_left(left: u32) -> (next: Option<u32>)
    ensures
        next == shows_left_after(left),
{
    if left > 0 {
        Some(left - 1)
    } else {
        None
    }
}

/// Applies `next_shows_left` to the counter with
/// `AtomicU32::fetch_update`, which retries its compare-and-swap until the
/// update went through or the update function declined. It hands back the
/// value the counter held before: in `Ok` where the update was stored, in
/// `Err` where the update function returned `None` for it.
#[verifier::external_body]
fn take_show(shows_left: &AtomicU32) -> (outcome: Result<u32, u32>)
    ensures
        match outcome {
            Ok(left) => shows_left_after(left) is Some,
            Err(left) => shows_left_after(left) is None,
        },
{
    shows_left.fetch_update(Ordering::SeqCst, Ordering::SeqCst, |left| next_shows_left(left))
}

/// A banner as a mathematical value.
pub struct Listing {
    /// The address of the image.
    pub url: Seq<char>,
    /// How many times the banner may be shown in all.
    pub total: u32,
}

/// One banner of the inventory: its URL, its impression budget, and the
/// number of shows left, which concurrent requests count down.
#[derive(Debug)]
pub struct Banner {
    url: String,
    shows_amount: u32,
    shows_left: AtomicU32,
}

impl View for Banner {
    type V = Listing;

    closed spec fn view(&self) -> Listing {
        Listing { url: self.url@, total: self.shows_amount }
    }
}

impl Banner {
    /// A banner with its whole budget left.
    pub fn new(url: String, shows_amount: u32) -> (banner: Self)
        ensures
            banner@ == (Listing { url: url@, total: shows_amount }),
    {
        Banner { url, shows_amount, shows_left: AtomicU32::new(shows_amount) }
    }

    /// The impression budget the banner was loaded with.
    pub fn shows_amount(&self) -> (total: u32)
        ensures
            total == self@.total,
    {
        self.shows_amount
    }

    /// The page that shows the banner.
    pub fn html(&self) -> (page: String)
        ensures
            page@ == html_of(self@.url),
    {
        let mut page = String::from_str("<html><body><img src=\"");
        page.append(self.url.as_str());
        page.append("\"/></body></html>");
        page
    }

    /// What a show returns once the counter has answered: the page where a
    /// show was taken, nothing where none was left.
    pub fn shown(&self, outcome: Result<u32, u32>) -> (page: Option<String>)
        ensures
            match outcome {
                Ok(_) => page matches Some(html) && html@ == html_of(self@.url),
                Err(_) => page is None,
            },
    {
        match outcome {
            Ok(_) => Some(self.html()),
            Err(_) => None,
        }
    }

    /// Takes one show from the budget, if one is left, and returns the page.
    /// Shows taken concurrently never exceed the budget: the counter is
    /// decremented atomically, and only while it is positive.
    pub fn show_html(&self) -> (page: Option<String>)
        ensures
            page matches Some(html) ==> html@ == html_of(self@.url),
    {
        let outcome = take_show(&self.shows_left);
        self.shown(outcome)
    }

    /// Whether a show was left when the counter was read. The answer may be
    /// stale by the time the caller acts on it.
    pub fn can_show(&self) -> bool {
        has_show(self.shows_left.load(Ordering::SeqCst))
    }
}

/// The names of a list of categories.
pub open spec fn names(categories: Seq<String>) -> Seq<Seq<char>> {
    Seq::new(categories.len(), |k: int| categories[k]@)
}

/// What loading answers for a record: the first rule the record breaks, or
/// success.
pub open spec fn validation(url: Seq<char>, shows_amount: u32, categories: nat) -> Result<
    (),
    StoreError,
> {
    if url.len() == 0 {
        Err(StoreError::IllegalUrl)
    } else if shows_amount == 0 {
        Err(StoreError::IllegalShowsAmount)
    } else if categories == 0 {
        Err(StoreError::EmptyCategories)
    } else {
        Ok(())
    }
}

/// The part of an inventory that is fixed once it is loaded: the banners in
/// load order, and for each category the positions of its banners.
pub struct Inventory {
    /// The banners; a banner's position never changes.
    pub banners: Seq<Listing>,
    /// For each category, the positions of the banners loaded with it, in
    /// load order.
    pub index: Map<Seq<char>, Seq<usize>>,
}

impl Inventory {
    /// The inventory that holds nothing.
    pub open spec fn empty() -> Inventory {
        Inventory { banners: Seq::empty(), index: Map::empty() }
    }

    /// Every banner has a URL and a positive budget, and the index lists
    /// positions of banners only, in load order.
    pub open spec fn valid(self) -> bool {
        &&& self.banners.len() <= usize::MAX
        &&& forall|i: int|
            0 <= i < self.banners.len() ==> (#[trigger] self.banners[i]).url.len() > 0
                && self.banners[i].total > 0
        &&& forall|c: Seq<char>| #[trigger]
            self.index.contains_key(c) ==> {
                &&& self.index[c].len() > 0
                &&& non_decreasing(self.index[c])
                &&& forall|k: int|
                    0 <= k < self.index[c].len() ==> (#[trigger] self.index[c][k])
                        < self.banners.len()
            }
    }

    /// The positions listed under a category; none under an unknown one.
    pub open spec fn listed(self, category: Seq<char>) -> Seq<usize> {
        if self.index.contains_key(category) {
            self.index[category]
        } else {
            Seq::empty()
        }
    }

    /// The banner at `position` was loaded with one of the categories.
    pub open spec fn tagged(self, position: usize, categories: Seq<Seq<char>>) -> bool {
        exists|k: int|
            0 <= k < categories.len() && (#[trigger] self.listed(categories[k])).contains(position)
    }

    /// The positions of the banners loaded with one of the categories, each
    /// once and in ascending order.
    pub open spec fn tagged_positions(self, categories: Seq<Seq<char>>) -> Seq<usize> {
        positions_where(self.banners.len(), |i: int| self.tagged(i as usize, categories))
    }

    /// The banner at `position` may answer a request for the categories:
    /// any banner where none is asked for, otherwise one loaded with one of
    /// them.
    pub open spec fn can_serve(self, position: usize, categories: Seq<Seq<char>>) -> bool {
        &&& position < self.banners.len()
        &&& categories.len() == 0 || self.tagged(position, categories)
    }

    /// The budgets of the banners at the given positions.
    pub open spec fn budgets(self, positions: Seq<usize>) -> Seq<nat> {
        Seq::new(positions.len(), |k: int| self.banners[positions[k] as int].total as nat)
    }

    /// The selection table over all banners, each weighted by its budget.
    pub open spec fn table(self) -> Table {
        Table {
            weights: Seq::new(self.banners.len(), |i: int| self.banners[i].total as nat),
            projection: None,
        }
    }

    /// The selection table over the banners at the given positions, each
    /// weighted by its budget.
    pub open spec fn table_of(self, positions: Seq<usize>) -> Table {
        Table { weights: self.budgets(positions), projection: Some(positions) }
    }

    /// The index after the next banner was listed under the categories: its
    /// position is appended to the list of each of them, once for each time
    /// the category was named.
    pub open spec fn listing(self, categories: Seq<Seq<char>>) -> Map<Seq<char>, Seq<usize>> {
        Map::new(
            |c: Seq<char>| self.index.contains_key(c) || categories.contains(c),
            |c: Seq<char>|
                self.listed(c) + Seq::new(
                    categories.to_multiset().count(c),
                    |k: int| self.banners.len() as usize,
                ),
        )
    }

    /// The inventory after a banner was loaded: the banner stands last, and
    /// is listed under its categories.
    pub open spec fn with_banner(
        self,
        url: Seq<char>,
        total: u32,
        categories: Seq<Seq<char>>,
    ) -> Inventory {
        Inventory {
            banners: self.banners.push(Listing { url, total }),
            index: self.listing(categories),
        }
    }

    /// Loading a banner that passes validation keeps the inventory valid.
    pub proof fn lemma_with_banner_valid(
        self,
        url: Seq<char>,
        total: u32,
        categories: Seq<Seq<char>>,
    )
        requires
            self.valid(),
            self.banners.len() < usize::MAX,
            validation(url, total, categories.len()) is Ok,
        ensures
            self.with_banner(url, total, categories).valid(),
    {
        let after = self.with_banner(url, total, categories);
        let n = self.banners.len() as usize;
        assert forall|c: Seq<char>| #[trigger] after.index.contains_key(c) implies {
            &&& after.index[c].len() > 0
            &&& non_decreasing(after.index[c])
            &&& forall|k: int|
                0 <= k < after.index[c].len() ==> (#[trigger] after.index[c][k])
                    < after.banners.len()
        } by {
            let list = after.index[c];
            let earlier = self.listed(c);
            if !self.index.contains_key(c) {
                categories.to_multiset_ensures();
            }
            assert forall|k: int| 0 <= k < list.len() implies (#[trigger] list[k])
                < after.banners.len() by {
                if k < earlier.len() {
                    assert(list[k] == self.index[c][k]);
                }
            }
            assert forall|i: int, j: int| 0 <= i <= j < list.len() implies list[i] <= list[j] by {
                if j < earlier.len() {
                    assert(list[i] == self.index[c][i]);
                    assert(list[j] == self.index[c][j]);
                } else if i < earlier.len() {
                    assert(list[i] == self.index[c][i]);
                }
            }
        }
    }
}

/// An inventory that is loaded record by record and then serves requests.
pub trait Storage {
    /// The loaded inventory as a mathematical value.
    spec fn inventory(&self) -> Inventory;

    /// Loads a banner. A record without URL, without budget or without
    /// category is refused, in this order, and changes nothing.
    fn add_banner(&mut self, url: String, shows_amount: u32, categories: Vec<String>) -> (res:
        Result<(), StoreError>)
        ensures
            res == validation(url@, shows_amount, categories@.len()),
            final(self).inventory() == if res is Ok {
                old(self).inventory().with_banner(url@, shows_amount, names(categories@))
            } else {
                old(self).inventory()
            },
            final(self).inventory().valid(),
    ;

    /// Serves a request: the page of a banner that may answer it and had a
    /// show left, or nothing. A page that is returned is one that a request
    /// for these categories returns when it is served alone, for some state
    /// of the counters and some draw.
    fn get_banner_html(&self, categories: Vec<String>) -> (page: Option<String>)
        ensures
            self.inventory().valid(),
            page matches Some(html) ==> exists|i: usize|
                self.inventory().can_serve(i, names(categories@)) && html@ == html_of(
                    self.inventory().banners[i as int].url,
                ),
            page matches Some(html) ==> exists|left: Seq<u32>, draw: nat, i: usize|
                self.inventory().shows(names(categories@), left, draw, i) && html@ == html_of(
                    self.inventory().banners[i as int].url,
                ),
    ;
}

/// The inventory, held in memory. It is loaded by one thread; after that any
/// number of threads may serve from it, and only the banners' counters
/// change.
pub struct InMemoryStorage {
    banners: Vec<Banner>,
    index: StringHashMap<Vec<usize>>,
    cumulative_weights: CumulativeWeights,
}

impl View for InMemoryStorage {
    type V = Inventory;

    closed spec fn view(&self) -> Inventory {
        inventory_of(self.banners@, self.index@)
    }
}

/// The index that a map of position lists stands for.
spec fn index_of(index: Map<Seq<char>, Vec<usize>>) -> Map<Seq<char>, Seq<usize>> {
    Map::new(|c: Seq<char>| index.contains_key(c), |c: Seq<char>| index[c]@)
}

/// The inventory that a list of banners and a map of position lists stand
/// for.
spec fn inventory_of(banners: Seq<Banner>, index: Map<Seq<char>, Vec<usize>>) -> Inventory {
    Inventory { banners: Seq::new(banners.len(), |i: int| banners[i]@), index: index_of(index) }
}

/// The index with one more position under a category.
spec fn listed_under(index: Map<Seq<char>, Seq<usize>>, category: Seq<char>, position: usize) -> Map<
    Seq<char>,
    Seq<usize>,
> {
    if index.contains_key(category) {
        index.insert(category, index[category].push(position))
    } else {
        index.insert(category, seq![position])
    }
}

/// Listing the next banner under one more category is one step of listing
/// it under all of them.
proof fn lemma_listed_under(inventory: Inventory, categories: Seq<Seq<char>>, j: int)
    requires
        0 <= j < categories.len(),
    ensures
        listed_under(
            inventory.listing(categories.take(j)),
            categories[j],
            inventory.banners.len() as usize,
        ) == inventory.listing(categories.take(j + 1)),
{
    let n = inventory.banners.len() as usize;
    let before = categories.take(j);
    let after = categories.take(j + 1);
    let c = categories[j];
    assert(after =~= before.push(c));
    before.to_multiset_ensures();
    let a = listed_under(inventory.listing(before), c, n);
    let b = inventory.listing(after);
    assert forall|x: Seq<char>| a.contains_key(x) <==> b.contains_key(x) by {
        if before.contains(x) {
            let k = choose|k: int| 0 <= k < before.len() && before[k] == x;
            assert(after[k] == x);
        }
        if after.contains(x) && x != c {
            let k = choose|k: int| 0 <= k < after.len() && after[k] == x;
            assert(before[k] == x);
        }
        assert(after[j] == c);
    }
    assert forall|x: Seq<char>| a.contains_key(x) implies a[x] == b[x] by {
        if x == c {
            if !inventory.listing(before).contains_key(c) {
                assert(!before.contains(c));
                assert(before.to_multiset().count(c) == 0);
            }
            assert(a[x] =~= b[x]);
        } else {
            assert(after.to_multiset().count(x) == before.to_multiset().count(x));
            assert(a[x] =~= b[x]);
        }
    }
    assert(a =~= b);
}

/// Appends a position to the list of a category, which is created if the
/// category is new.
fn list_under(index: &mut StringHashMap<Vec<usize>>, category: &String, position: usize)
    ensures
        index_of(final(index)@) == listed_under(index_of(old(index)@), category@, position),
{
    let mut list: Vec<usize> = Vec::new();
    match index.get(category.as_str()) {
        Some(listed) => {
            let mut k: usize = 0;
            while k < listed.len()
                invariant
                    k <= listed@.len(),
                    list@ == listed@.take(k as int),
                decreases listed@.len() - k,
            {
                list.push(listed[k]);
                assert(listed@.take(k + 1) =~= listed@.take(k as int).push(listed@[k as int]));
                k = k + 1;
            }
            assert(listed@.take(k as int) =~= listed@);
        },
        None => {},
    }
    list.push(position);
    let ghost before = index_of(index@);
    index.insert(category.clone(), list);
    assert(index_of(index@) =~= listed_under(before, category@, position));
}

impl InMemoryStorage {
    #[verifier::type_invariant]
    spec fn well_formed(&self) -> bool {
        &&& self@.valid()
        &&& self.cumulative_weights@ == self@.table()
    }

    /// An inventory without banners.
    pub fn new() -> (storage: Self)
        ensures
            storage@ == Inventory::empty(),
    {
        let banners: Vec<Banner> = Vec::new();
        let index: StringHashMap<Vec<usize>> = StringHashMap::new();
        let cumulative_weights = CumulativeWeights::new();
        proof {
            let inventory = inventory_of(banners@, index@);
            assert(inventory.banners =~= Seq::empty());
            assert(inventory.index =~= Map::empty());
            assert(inventory.table().weights =~= Seq::empty());
        }
        InMemoryStorage { banners, index, cumulative_weights }
    }

    /// The number of banners loaded.
    pub fn banner_count(&self) -> (count: usize)
        ensures
            count == self@.banners.len(),
    {
        self.banners.len()
    }

    /// The number of categories that banners were loaded with.
    pub fn category_count(&self) -> (count: usize)
        ensures
            count == self@.index.dom().len(),
    {
        assert(self@.index.dom() =~= self.index@.dom());
        self.index.len()
    }
}

impl Storage for InMemoryStorage {
    open spec fn inventory(&self) -> Inventory {
        self@
    }

    fn add_banner(&mut self, url: String, shows_amount: u32, categories: Vec<String>) -> (res:
        Result<(), StoreError>) {
        proof {
            use_type_invariant(&*self);
        }
        if url.as_str().is_empty() {
            return Err(StoreError::IllegalUrl);
        }
        if shows_amount == 0 {
            return Err(StoreError::IllegalShowsAmount);
        }
        if categories.len() == 0 {
            return Err(StoreError::EmptyCategories);
        }
        let ghost before = self@;
        let ghost loaded = before.with_banner(url@, shows_amount, names(categories@));
        let mut taken = InMemoryStorage::new();
        std::mem::swap(self, &mut taken);
        let InMemoryStorage { mut banners, mut index, mut cumulative_weights } = taken;

        let banner_idx = banners.len();
        banners.push(Banner::new(url, shows_amount));
        assert(banner_idx < usize::MAX) by {
            assert(banners.len() == banner_idx + 1);
        }
        assert(inventory_of(banners@, index@).banners =~= loaded.banners);

        let mut j: usize = 0;
        assert(before.listing(names(categories@).take(0)) =~= before.index) by {
            names(categories@).take(0).to_multiset_ensures();
        }
        while j < categories.len()
            invariant
                j <= categories@.len(),
                banner_idx == before.banners.len(),
                banner_idx < usize::MAX,
                index_of(index@) == before.listing(names(categories@).take(j as int)),
            decreases categories@.len() - j,
        {
            proof {
                lemma_listed_under(before, names(categories@), j as int);
            }
            list_under(&mut index, &categories[j], banner_idx);
            j = j + 1;
        }
        assert(names(categories@).take(j as int) =~= names(categories@));

        cumulative_weights.add_weight(shows_amount);
        proof {
            assert(inventory_of(banners@, index@) == loaded);
            assert(cumulative_weights@.weights =~= loaded.table().weights);
            before.lemma_with_banner_valid(url@, shows_amount, names(categories@));
        }
        *self = InMemoryStorage { banners, index, cumulative_weights };
        Ok(())
    }

    fn get_banner_html(&self, categories: Vec<String>) -> (page: Option<String>) {
        proof {
            use_type_invariant(self);
        }
        let ghost asked = names(categories@);
        match self.filter_by_categories(&categories) {
            FilterResult::All => {
                let page = self.show_html_select_all();
                proof {
                    if page is Some {
                        let (r, i) = choose|r: nat, i: usize|
                            self.is_show_of(self@.table(), r, i, page->0@);
                        self@.lemma_shows_of_all(r, i);
                        assert(self@.shows(asked, self@.untouched(), r, i));
                        assert(self.inventory().can_serve(i, asked) && page->0@ == html_of(
                            self.inventory().banners[i as int].url,
                        ));
                    }
                }
                page
            },
            FilterResult::Slice { indexes } => {
                let ghost tagged = self@.tagged_positions(asked);
                let ghost available = choose|available: Seq<bool>|
                    available.len() == tagged.len() && indexes@ == retained(tagged, available);
                proof {
                    lemma_positions_where(
                        self@.banners.len(),
                        |i: int| self@.tagged(i as usize, asked),
                    );
                    lemma_retained(tagged, available);
                    assert forall|k: int| 0 <= k < indexes@.len() implies tagged.contains(
                        #[trigger] indexes@[k],
                    ) by {
                        assert(indexes@.contains(indexes@[k]));
                    }
                }
                let weights = self.get_cumulative_weights(&indexes);
                let page = self.show_html(&weights);
                proof {
                    if page is Some {
                        let (r, i) = choose|r: nat, i: usize|
                            self.is_show_of(weights@, r, i, page->0@);
                        self@.lemma_shows_of_read(asked, available, r, i);
                        assert(self@.shows(asked, self@.as_read(asked, available), r, i));
                        assert(self.inventory().can_serve(i, asked) && page->0@ == html_of(
                            self.inventory().banners[i as int].url,
                        ));
                    }
                }
                page
            },
        }
    }
}

/// The candidates of a request.
#[derive(Debug)]
pub enum FilterResult {
    /// Every banner is a candidate: the request names no category.
    All,
    /// The candidates are the banners at these positions, in ascending
    /// order.
    Slice {
        /// The positions of the candidates.
        indexes: Vec<usize>,
    },
}

impl InMemoryStorage {
    /// `html` is the page of the banner at `position`, which draw `r`
    /// selects from the table.
    pub open spec fn is_show_of(&self, table: Table, r: nat, position: usize, html: Seq<char>) -> bool {
        &&& r <= table.total()
        &&& table.selection(r) == Some(position)
        &&& position < self@.banners.len()
        &&& html == html_of(self@.banners[position as int].url)
    }

    /// The positions of the banners loaded with one of the categories, each
    /// once and in ascending order.
    pub fn tagged_positions(&self, categories: &Vec<String>) -> (tagged: Vec<usize>)
        ensures
            tagged@ == self@.tagged_positions(names(categories@)),
            self@.valid(),
    {
        proof {
            use_type_invariant(self);
        }
        let ghost asked = names(categories@);
        let mut tagged: Vec<usize> = Vec::new();
        let mut k: usize = 0;
        while k < categories.len()
            invariant
                self@.valid(),
                self@ == inventory_of(self.banners@, self.index@),
                asked == names(categories@),
                k <= categories@.len(),
                ascending(tagged@),
                forall|x: usize| tagged@.contains(x) <==> self@.tagged(x, asked.take(k as int)),
            decreases categories@.len() - k,
        {
            let ghost earlier = tagged@;
            let ghost c = asked[k as int];
            match self.index.get(categories[k].as_str()) {
                Some(listed) => {
                    assert(self@.index.contains_key(c));
                    assert(listed@ == self@.listed(c));
                    tagged = merge_positions(&tagged, listed);
                },
                None => {
                    assert(self@.listed(c) =~= Seq::empty());
                },
            }
            proof {
                let before = asked.take(k as int);
                let after = asked.take(k + 1);
                assert forall|x: usize| tagged@.contains(x) <==> self@.tagged(x, after) by {
                    if earlier.contains(x) {
                        let m = choose|m: int|
                            0 <= m < before.len() && (#[trigger] self@.listed(before[m])).contains(
                                x,
                            );
                        assert(after[m] == before[m]);
                    }
                    if self@.listed(c).contains(x) {
                        assert(after[k as int] == c);
                    }
                    if self@.tagged(x, after) {
                        let m = choose|m: int|
                            0 <= m < after.len() && (#[trigger] self@.listed(after[m])).contains(x);
                        if m < k {
                            assert(before[m] == after[m]);
                        }
                    }
                }
            }
            k = k + 1;
        }
        proof {
            assert(asked.take(k as int) =~= asked);
            let keep = |i: int| self@.tagged(i as usize, asked);
            lemma_positions_where(self@.banners.len(), keep);
            assert forall|x: usize| tagged@.contains(x) implies x < self@.banners.len() by {
                let m = choose|m: int|
                    0 <= m < asked.len() && (#[trigger] self@.listed(asked[m])).contains(x);
                let list = self@.listed(asked[m]);
                let at = choose|at: int| 0 <= at < list.len() && list[at] == x;
                assert(self@.index.contains_key(asked[m]));
                assert(self@.index[asked[m]][at] < self@.banners.len());
            }
            lemma_ascending_unique(tagged@, self@.tagged_positions(asked));
        }
        tagged
    }

    /// Reads, for each of the positions, whether its banner has a show left.
    /// Each reading is a snapshot: a concurrent request may take the show
    /// before the caller does.
    pub fn availability(&self, positions: &Vec<usize>) -> (available: Vec<bool>)
        requires
            forall|k: int| 0 <= k < positions@.len() ==> positions@[k] < self@.banners.len(),
        ensures
            available@.len() == positions@.len(),
    {
        let mut available: Vec<bool> = Vec::new();
        let mut k: usize = 0;
        while k < positions.len()
            invariant
                forall|k: int| 0 <= k < positions@.len() ==> positions@[k] < self.banners@.len(),
                k <= positions@.len(),
                available@.len() == k,
            decreases positions@.len() - k,
        {
            available.push(self.banners[positions[k]].can_show());
            k = k + 1;
        }
        available
    }

    /// The candidates of a request: every banner where no category is named,
    /// otherwise the banners loaded with one of the categories, without those
    /// that were read as exhausted.
    pub fn filter_by_categories(&self, categories: &Vec<String>) -> (found: FilterResult)
        ensures
            match found {
                FilterResult::All => categories@.len() == 0,
                FilterResult::Slice { indexes } => categories@.len() > 0 && exists|
                    available: Seq<bool>,
                |
                    available.len() == self@.tagged_positions(names(categories@)).len()
                        && indexes@ == retained(
                        self@.tagged_positions(names(categories@)),
                        available,
                    ),
            },
    {
        if categories.len() == 0 {
            return FilterResult::All;
        }
        let tagged = self.tagged_positions(categories);
        proof {
            lemma_positions_where(
                self@.banners.len(),
                |i: int| self@.tagged(i as usize, names(categories@)),
            );
            assert forall|k: int| 0 <= k < tagged@.len() implies tagged@[k]
                < self@.banners.len() by {
                assert(tagged@.contains(tagged@[k]));
            }
        }
        let available = self.availability(&tagged);
        let indexes = retain_available(&tagged, &available);
        FilterResult::Slice { indexes }
    }

    /// The selection table over the banners at the given positions, each
    /// weighted by its budget.
    pub fn get_cumulative_weights(&self, indexes: &Vec<usize>) -> (weights: CumulativeWeights)
        requires
            forall|k: int| 0 <= k < indexes@.len() ==> indexes@[k] < self@.banners.len(),
        ensures
            weights@ == self@.table_of(indexes@),
    {
        let mut weights = CumulativeWeights::with_projection();
        let mut k: usize = 0;
        assert(self@.table_of(indexes@.take(0)) =~= weights@) by {
            assert(self@.budgets(indexes@.take(0)) =~= Seq::empty());
            assert(indexes@.take(0) =~= Seq::empty());
        }
        while k < indexes.len()
            invariant
                forall|k: int| 0 <= k < indexes@.len() ==> indexes@[k] < self.banners@.len(),
                self@ == inventory_of(self.banners@, self.index@),
                k <= indexes@.len(),
                weights@ == self@.table_of(indexes@.take(k as int)),
            decreases indexes@.len() - k,
        {
            let idx = indexes[k];
            let banner = &self.banners[idx];
            weights.add_weight_for_idx(banner.shows_amount(), idx);
            proof {
                let before = indexes@.take(k as int);
                let after = indexes@.take(k + 1);
                assert(after =~= before.push(idx));
                assert(self@.budgets(after) =~= self@.budgets(before).push(
                    banner@.total as nat,
                ));
            }
            k = k + 1;
        }
        proof {
            assert(indexes@.take(k as int) =~= indexes@);
        }
        weights
    }

    /// Selects a banner from the table and takes a show from it. Nothing is
    /// returned where the table is empty, or where the selected banner has
    /// no show left by now.
    pub fn show_html(&self, weights: &CumulativeWeights) -> (page: Option<String>)
        ensures
            page matches Some(html) ==> exists|r: nat, i: usize|
                self.is_show_of(weights@, r, i, html@),
    {
        match weights.select_uniformly() {
            Some(idx) => {
                if idx < self.banners.len() {
                    let page = self.banners[idx].show_html();
                    proof {
                        if page is Some {
                            let r = choose|r: nat|
                                r <= weights@.total() && Some(idx) == weights@.selection(r);
                            assert(self.is_show_of(weights@, r, idx, page->0@));
                        }
                    }
                    page
                } else {
                    None
                }
            },
            None => None,
        }
    }

    /// Selects a banner among all and takes a show from it. Nothing is
    /// returned where the inventory is empty, or where the selected banner
    /// has no show left.
    pub fn show_html_select_all(&self) -> (page: Option<String>)
        ensures
            page matches Some(html) ==> exists|r: nat, i: usize|
                self.is_show_of(self@.table(), r, i, html@),
    {
        proof {
            use_type_invariant(self);
        }
        self.show_html(&self.cumulative_weights)
    }
}

} // verus!
