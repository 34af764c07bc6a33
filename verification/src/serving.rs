//! The course of requests that are served one after the other: which banner
//! each request selects, and what it leaves of the budgets.
//!
//! The counters of a live inventory change under concurrent requests, so no
//! value of the inventory holds them. Here they are a sequence of their own,
//! and a request is given together with the draw it makes.

use crate::storage::shows_left_after;
use crate::storage::Inventory;
use crate::util::cumulative_weights::lemma_selection_is_candidate;
use crate::util::cumulative_weights::Table;
use crate::util::positions::ascending;
use crate::util::positions::lemma_ascending_unique;
use crate::util::positions::lemma_positions_where;
use crate::util::positions::lemma_retained;
use crate::util::positions::retained;
use vstd::prelude::*;

verus! {

/// A request and the draw it makes.
pub struct Request {
    /// The categories asked for; none asks for any banner.
    pub categories: Seq<Seq<char>>,
    /// The draw that selects among the candidates.
    pub draw: nat,
}

impl Inventory {
    /// The counters fit the inventory: one for each banner, none above the
    /// banner's budget.
    pub open spec fn counted(self, left: Seq<u32>) -> bool {
        &&& left.len() == self.banners.len()
        &&& forall|i: int| 0 <= i < left.len() ==> #[trigger] left[i] <= self.banners[i].total
    }

    /// The counters of an inventory from which nothing was served yet.
    pub open spec fn untouched(self) -> Seq<u32> {
        Seq::new(self.banners.len(), |i: int| self.banners[i].total)
    }

    /// What reading the counters of the given positions finds: whether each
    /// has a show left.
    pub open spec fn readings(self, positions: Seq<usize>, left: Seq<u32>) -> Seq<bool> {
        Seq::new(positions.len(), |k: int| left[positions[k] as int] > 0)
    }

    /// The positions that a request for the categories draws from: those
    /// loaded with one of the categories whose banner has a show left.
    pub open spec fn eligible(self, categories: Seq<Seq<char>>, left: Seq<u32>) -> Seq<usize> {
        retained(
            self.tagged_positions(categories),
            self.readings(self.tagged_positions(categories), left),
        )
    }

    /// The table a request draws from: the table of all banners where no
    /// category is asked for, otherwise a table of the eligible banners.
    pub open spec fn candidates(self, categories: Seq<Seq<char>>, left: Seq<u32>) -> Table {
        if categories.len() == 0 {
            self.table()
        } else {
            self.table_of(self.eligible(categories, left))
        }
    }

    /// The position that the request selects.
    pub open spec fn selected(self, request: Request, left: Seq<u32>) -> Option<usize> {
        self.candidates(request.categories, left).selection(request.draw)
    }

    /// The position of the banner whose page the request returns: the
    /// selected banner, if a show is left of it.
    pub open spec fn served(self, request: Request, left: Seq<u32>) -> Option<usize> {
        match self.selected(request, left) {
            Some(i) => if i < self.banners.len() && shows_left_after(left[i as int]) is Some {
                Some(i)
            } else {
                None
            },
            None => None,
        }
    }

    /// The counters after the request.
    pub open spec fn left_after(self, request: Request, left: Seq<u32>) -> Seq<u32> {
        match self.served(request, left) {
            Some(i) => left.update(i as int, shows_left_after(left[i as int])->0),
            None => left,
        }
    }

    /// The counters after a sequence of requests.
    pub open spec fn left_after_all(self, requests: Seq<Request>, left: Seq<u32>) -> Seq<u32>
        decreases requests.len(),
    {
        if requests.len() == 0 {
            left
        } else {
            self.left_after(requests.last(), self.left_after_all(requests.drop_last(), left))
        }
    }

    /// The position of the banner whose page the `k`-th request of a
    /// sequence returns.
    pub open spec fn served_at(self, requests: Seq<Request>, left: Seq<u32>, k: int) -> Option<
        usize,
    > {
        self.served(requests[k], self.left_after_all(requests.take(k), left))
    }

    /// The number of requests of a sequence that return the page of the
    /// banner at `position`.
    pub open spec fn shows_of(self, position: usize, requests: Seq<Request>, left: Seq<u32>) -> nat
        decreases requests.len(),
    {
        if requests.len() == 0 {
            0
        } else {
            let earlier = self.shows_of(position, requests.drop_last(), left);
            if self.served_at(requests, left, requests.len() - 1) == Some(position) {
                earlier + 1
            } else {
                earlier
            }
        }
    }

    /// The eligible positions are those loaded with one of the categories
    /// whose counter is positive, each once and in ascending order.
    pub proof fn lemma_eligible(self, categories: Seq<Seq<char>>, left: Seq<u32>)
        requires
            self.valid(),
            self.counted(left),
        ensures
            ascending(self.eligible(categories, left)),
            forall|x: usize| #[trigger]
                self.eligible(categories, left).contains(x) <==> x < self.banners.len()
                    && self.tagged(x, categories) && left[x as int] > 0,
    {
        let tagged = self.tagged_positions(categories);
        let available = self.readings(tagged, left);
        lemma_positions_where(self.banners.len(), |i: int| self.tagged(i as usize, categories));
        lemma_retained(tagged, available);
        assert forall|x: usize| #[trigger]
            self.eligible(categories, left).contains(x) <==> x < self.banners.len() && self.tagged(
                x,
                categories,
            ) && left[x as int] > 0 by {
            if self.eligible(categories, left).contains(x) {
                let k = choose|k: int| 0 <= k < tagged.len() && tagged[k] == x && available[k];
                assert(tagged.contains(x));
            }
            if x < self.banners.len() && self.tagged(x, categories) && left[x as int] > 0 {
                assert(tagged.contains(x));
                let k = choose|k: int| 0 <= k < tagged.len() && tagged[k] == x;
                assert(tagged[k] == x && available[k]);
            }
        }
    }

    /// With counters `left`, a request for the categories that draws `draw`
    /// returns the page of the banner at `position`.
    pub open spec fn shows(
        self,
        categories: Seq<Seq<char>>,
        left: Seq<u32>,
        draw: nat,
        position: usize,
    ) -> bool {
        &&& self.counted(left)
        &&& draw <= self.candidates(categories, left).total()
        &&& self.served(Request { categories, draw }, left) == Some(position)
    }

    /// Counters that read as `available` at the positions loaded with the
    /// categories: one show left where the reading found one, none
    /// elsewhere.
    pub open spec fn as_read(self, categories: Seq<Seq<char>>, available: Seq<bool>) -> Seq<u32> {
        Seq::new(
            self.banners.len(),
            |i: int|
                if exists|k: int|
                    0 <= k < available.len() && #[trigger] self.tagged_positions(categories)[k] == i
                        && available[k] {
                    1u32
                } else {
                    0u32
                },
        )
    }

    /// With every budget untouched, a request for any banner that draws `r`
    /// returns the banner that `r` selects from the table of all banners.
    pub proof fn lemma_shows_of_all(self, r: nat, position: usize)
        requires
            self.valid(),
            r <= self.table().total(),
            self.table().selection(r) == Some(position),
        ensures
            self.shows(Seq::empty(), self.untouched(), r, position),
            self.can_serve(position, Seq::empty()),
    {
        lemma_selection_is_candidate(self.table(), r);
        let k = choose|k: int| 0 <= k < self.table().len() && position == #[trigger] self.table().target(k);
        assert(self.banners[k].total > 0);
    }

    /// With counters that read as `available`, a request for the categories
    /// that draws `r` returns the banner that `r` selects from the table of
    /// the banners found available.
    pub proof fn lemma_shows_of_read(
        self,
        categories: Seq<Seq<char>>,
        available: Seq<bool>,
        r: nat,
        position: usize,
    )
        requires
            self.valid(),
            categories.len() > 0,
            available.len() == self.tagged_positions(categories).len(),
            r <= self.table_of(retained(self.tagged_positions(categories), available)).total(),
            self.table_of(retained(self.tagged_positions(categories), available)).selection(r)
                == Some(position),
        ensures
            self.shows(categories, self.as_read(categories, available), r, position),
            self.can_serve(position, categories),
    {
        let tagged = self.tagged_positions(categories);
        let left = self.as_read(categories, available);
        lemma_positions_where(self.banners.len(), |i: int| self.tagged(i as usize, categories));
        lemma_retained(tagged, available);
        assert(self.readings(tagged, left) =~= available) by {
            assert forall|k: int| 0 <= k < tagged.len() implies (left[tagged[k] as int] > 0)
                == available[k] by {
                assert(tagged.contains(tagged[k]));
                if left[tagged[k] as int] > 0 {
                    let m = choose|m: int|
                        0 <= m < available.len() && #[trigger] tagged[m] == tagged[k] as int
                            && available[m];
                    assert(m == k);
                }
            }
        }
        let table = self.table_of(retained(tagged, available));
        lemma_selection_is_candidate(table, r);
        let k = choose|k: int| 0 <= k < table.len() && position == #[trigger] table.target(k);
        let list = retained(tagged, available);
        assert(list[k] == position);
        assert(list.contains(position));
        let m = choose|m: int| 0 <= m < tagged.len() && tagged[m] == position && available[m];
        assert(tagged.contains(position));
        assert(left[position as int] == 1);
    }

    /// A request never returns a banner that was loaded with none of the
    /// categories asked for, nor one whose budget is used up.
    pub proof fn lemma_served_could_serve(self, request: Request, left: Seq<u32>)
        requires
            self.valid(),
            self.counted(left),
            request.draw <= self.candidates(request.categories, left).total(),
        ensures
            self.served(request, left) matches Some(i) ==> self.can_serve(i, request.categories)
                && left[i as int] > 0,
    {
        if self.served(request, left) is Some {
            let i = self.served(request, left)->0;
            let table = self.candidates(request.categories, left);
            lemma_selection_is_candidate(table, request.draw);
            if request.categories.len() > 0 {
                self.lemma_eligible(request.categories, left);
                let list = self.eligible(request.categories, left);
                let k = choose|k: int| 0 <= k < table.len() && i == #[trigger] table.target(k);
                assert(list[k] == i);
                assert(list.contains(i));
            }
        }
    }

    /// A request takes one show from the banner it returns and leaves every
    /// other counter as it was; a request that returns nothing takes none.
    pub proof fn lemma_left_after(self, request: Request, left: Seq<u32>)
        requires
            self.counted(left),
        ensures
            self.counted(self.left_after(request, left)),
            forall|j: usize|
                j < left.len() ==> #[trigger] self.left_after(request, left)[j as int] == if
                    self.served(request, left) == Some(j) {
                    left[j as int] - 1
                } else {
                    left[j as int] as int
                },
    {
    }

    /// However many requests are served, and whatever they ask for and draw,
    /// the shows of a banner and what is left of its budget add up to what
    /// was left before: a banner is never shown more often than its budget
    /// allows.
    pub proof fn lemma_shows_within_budget(
        self,
        position: usize,
        requests: Seq<Request>,
        left: Seq<u32>,
    )
        requires
            self.counted(left),
            position < self.banners.len(),
        ensures
            self.counted(self.left_after_all(requests, left)),
            self.shows_of(position, requests, left) + self.left_after_all(
                requests,
                left,
            )[position as int] == left[position as int],
            self.shows_of(position, requests, left) <= self.banners[position as int].total,
        decreases requests.len(),
    {
        if requests.len() > 0 {
            let earlier = requests.drop_last();
            self.lemma_shows_within_budget(position, earlier, left);
            let before = self.left_after_all(earlier, left);
            self.lemma_left_after(requests.last(), before);
            assert(requests.take(requests.len() - 1) =~= earlier);
        }
    }

    /// Where a banner is the only one with shows left among those loaded
    /// with the categories asked for, a request returns that banner and
    /// takes one of its shows; where it has none left either, the request
    /// returns nothing.
    pub proof fn lemma_only_candidate(self, position: usize, request: Request, left: Seq<u32>)
        requires
            self.valid(),
            self.counted(left),
            request.categories.len() > 0,
            position < self.banners.len(),
            self.tagged(position, request.categories),
            forall|j: usize|
                j != position && j < self.banners.len() && self.tagged(j, request.categories)
                    ==> left[j as int] == 0,
        ensures
            left[position as int] > 0 ==> self.served(request, left) == Some(position)
                && self.left_after(request, left) == left.update(
                position as int,
                (left[position as int] - 1) as u32,
            ),
            left[position as int] == 0 ==> self.served(request, left).is_none()
                && self.left_after(request, left) == left,
    {
        self.lemma_eligible(request.categories, left);
        let list = self.eligible(request.categories, left);
        if left[position as int] > 0 {
            let only = seq![position];
            assert(only[0] == position);
            assert forall|x: usize| list.contains(x) <==> only.contains(x) by {
                if only.contains(x) {
                    assert(x == position);
                    assert(list.contains(x));
                }
                if list.contains(x) {
                    assert(x == position);
                }
            }
            lemma_ascending_unique(list, only);
        } else {
            let none = Seq::<usize>::empty();
            assert forall|x: usize| list.contains(x) <==> none.contains(x) by {
                if list.contains(x) {
                    assert(x == position);
                }
            }
            lemma_ascending_unique(list, none);
            assert(self.budgets(list) =~= Seq::empty());
        }
    }

    /// A banner with `n` shows left, alone in having any among the banners
    /// of the categories asked for, answers exactly the first `n` of `n + 1`
    /// requests for these categories; the last one returns nothing.
    pub proof fn lemma_budget_is_served(
        self,
        position: usize,
        categories: Seq<Seq<char>>,
        requests: Seq<Request>,
        left: Seq<u32>,
    )
        requires
            self.valid(),
            self.counted(left),
            categories.len() > 0,
            position < self.banners.len(),
            self.tagged(position, categories),
            forall|j: usize|
                j != position && j < self.banners.len() && self.tagged(j, categories)
                    ==> left[j as int] == 0,
            requests.len() == left[position as int] + 1,
            forall|k: int| 0 <= k < requests.len() ==> (#[trigger] requests[k]).categories == categories,
        ensures
            forall|k: int|
                0 <= k < left[position as int] ==> self.served_at(requests, left, k) == Some(
                    position,
                ),
            self.served_at(requests, left, left[position as int] as int).is_none(),
    {
        let n = left[position as int] as int;
        assert forall|k: int| 0 <= k <= n implies if k < n {
            self.served_at(requests, left, k) == Some(position)
        } else {
            self.served_at(requests, left, k).is_none()
        } by {
            self.lemma_left_after_single(position, categories, requests, left, k);
            let before = self.left_after_all(requests.take(k), left);
            self.lemma_only_candidate(position, requests[k], before);
        }
    }

    /// What the first `k` requests for a banner that stands alone leave of
    /// the counters: `k` shows less of that banner.
    proof fn lemma_left_after_single(
        self,
        position: usize,
        categories: Seq<Seq<char>>,
        requests: Seq<Request>,
        left: Seq<u32>,
        k: int,
    )
        requires
            self.valid(),
            self.counted(left),
            categories.len() > 0,
            position < self.banners.len(),
            self.tagged(position, categories),
            forall|j: usize|
                j != position && j < self.banners.len() && self.tagged(j, categories)
                    ==> left[j as int] == 0,
            0 <= k <= left[position as int],
            k <= requests.len(),
            forall|m: int| 0 <= m < requests.len() ==> (#[trigger] requests[m]).categories == categories,
        ensures
            self.left_after_all(requests.take(k), left) == left.update(
                position as int,
                (left[position as int] - k) as u32,
            ),
        decreases k,
    {
        if k == 0 {
            assert(left.update(position as int, left[position as int]) =~= left);
        } else {
            self.lemma_left_after_single(position, categories, requests, left, k - 1);
            let before = self.left_after_all(requests.take(k - 1), left);
            assert(requests.take(k).drop_last() =~= requests.take(k - 1));
            assert(requests.take(k).last() == requests[k - 1]);
            self.lemma_only_candidate(position, requests[k - 1], before);
            assert(before.update(position as int, (before[position as int] - 1) as u32)
                =~= left.update(position as int, (left[position as int] - k) as u32));
        }
    }
}

} // verus!
