//! The contract's stored state, its mathematical model, its invariant, and
//! the lookups the operations are built from.
use crate::decimal::Decimal;
use crate::structs::MintPositionRecord;
use vstd::prelude::*;

verus! {

/// A debt position as stored under its identifier: the minter and the record.
#[derive(Debug)]
pub struct MintPosition {
    pub id: u64,
    pub minter: String,
    pub record: MintPositionRecord,
}

impl Clone for MintPosition {
    fn clone(&self) -> (r: Self)
        ensures
            r == *self,
    {
        MintPosition { id: self.id, minter: self.minter.clone(), record: self.record.clone() }
    }
}

/// The identifiers of the positions a user opened.
#[derive(Debug)]
pub struct UserPositions {
    pub user: String,
    pub ids: Vec<u64>,
}

/// A debt token and its expiry (nanoseconds).
#[derive(Debug)]
pub struct DebtExpiry {
    pub denom: String,
    pub expiry: u64,
}

/// A registered market: the pair of currencies and the market identifier.
#[derive(Debug)]
pub struct MarketEntry {
    pub base_currency: String,
    pub quote_currency: String,
    pub market_id: String,
}

/// The whole stored state of the contract.
///
/// `mint_positions` is kept in increasing order of identifier, the order in
/// which storage walks it; the other lists hold one entry per key.
#[derive(Debug)]
pub struct Contract {
    pub admin: Option<String>,
    pub collateral_ratio: Decimal,
    pub liquidation_fee_pct: Decimal,
    pub tracker_mint_id: u64,
    pub mint_positions: Vec<MintPosition>,
    pub user_mint_positions: Vec<UserPositions>,
    pub debt_expiration: Vec<DebtExpiry>,
    pub market_ids: Vec<MarketEntry>,
}

/// The model of the state: the same content, with every list as a sequence.
pub struct ContractModel {
    pub admin: Option<String>,
    pub collateral_ratio: Decimal,
    pub liquidation_fee_pct: Decimal,
    pub tracker_mint_id: u64,
    pub positions: Seq<MintPosition>,
    pub user_positions: Seq<(String, Seq<u64>)>,
    pub debt_expiration: Seq<(Seq<char>, u64)>,
    pub markets: Seq<(Seq<char>, Seq<char>, Seq<char>)>,
}

impl View for Contract {
    type V = ContractModel;

    open spec fn view(&self) -> ContractModel {
        ContractModel {
            admin: self.admin,
            collateral_ratio: self.collateral_ratio,
            liquidation_fee_pct: self.liquidation_fee_pct,
            tracker_mint_id: self.tracker_mint_id,
            positions: self.mint_positions@,
            user_positions: self.user_mint_positions@.map_values(
                |u: UserPositions| (u.user, u.ids@),
            ),
            debt_expiration: self.debt_expiration@.map_values(|d: DebtExpiry| (d.denom@, d.expiry)),
            markets: self.market_ids@.map_values(
                |e: MarketEntry| (e.base_currency@, e.quote_currency@, e.market_id@),
            ),
        }
    }
}

impl ContractModel {
    // ---- debt positions -------------------------------------------------
    pub open spec fn has_position(self, id: u64) -> bool {
        seq_has_position(self.positions, id)
    }

    pub open spec fn position_index(self, id: u64) -> int {
        seq_position_index(self.positions, id)
    }

    pub open spec fn position(self, id: u64) -> MintPosition {
        self.positions[self.position_index(id)]
    }

    // ---- users' lists of positions -------------------------------------
    pub open spec fn has_user(self, user: Seq<char>) -> bool {
        seq_has_user(self.user_positions, user)
    }

    pub open spec fn user_index(self, user: Seq<char>) -> int {
        seq_user_index(self.user_positions, user)
    }

    /// The identifiers listed for a user; none for a user without a list.
    pub open spec fn user_ids(self, user: Seq<char>) -> Seq<u64> {
        seq_user_ids(self.user_positions, user)
    }

    // ---- debt tokens ----------------------------------------------------
    pub open spec fn has_debt_token(self, denom: Seq<char>) -> bool {
        seq_has_key(self.debt_expiration, denom)
    }

    pub open spec fn debt_index(self, denom: Seq<char>) -> int {
        seq_key_index(self.debt_expiration, denom)
    }

    pub open spec fn debt_expiry(self, denom: Seq<char>) -> u64 {
        self.debt_expiration[self.debt_index(denom)].1
    }

    // ---- markets --------------------------------------------------------
    pub open spec fn has_market(self, base: Seq<char>, quote: Seq<char>) -> bool {
        seq_has_market(self.markets, base, quote)
    }

    pub open spec fn market_index(self, base: Seq<char>, quote: Seq<char>) -> int {
        seq_market_index(self.markets, base, quote)
    }

    pub open spec fn market_id(self, base: Seq<char>, quote: Seq<char>) -> Seq<char> {
        self.markets[self.market_index(base, quote)].2
    }

    // ---- invariant ------------------------------------------------------
    /// Positions are in strictly increasing order of identifier, and every
    /// identifier handed out so far is below the tracker.
    pub open spec fn positions_ordered(self) -> bool {
        &&& forall|i: int, j: int|
            0 <= i < j < self.positions.len() ==> #[trigger] self.positions[i].id
                < #[trigger] self.positions[j].id
        &&& forall|i: int|
            0 <= i < self.positions.len() ==> #[trigger] self.positions[i].id
                < self.tracker_mint_id
    }

    /// One list per user; each list names distinct identifiers below the
    /// tracker.
    pub open spec fn user_lists_sound(self) -> bool {
        &&& forall|i: int, j: int|
            0 <= i < j < self.user_positions.len() ==> #[trigger] self.user_positions[i].0@
                != #[trigger] self.user_positions[j].0@
        &&& forall|i: int, k: int|
            0 <= i < self.user_positions.len() && 0 <= k < self.user_positions[i].1.len()
                ==> #[trigger] self.user_positions[i].1[k] < self.tracker_mint_id
        &&& forall|i: int, k1: int, k2: int|
            0 <= i < self.user_positions.len() && 0 <= k1 < k2
                < self.user_positions[i].1.len() ==> #[trigger] self.user_positions[i].1[k1]
                != #[trigger] self.user_positions[i].1[k2]
    }

    /// Every open position is listed under its minter.
    pub open spec fn positions_listed(self) -> bool {
        forall|i: int|
            0 <= i < self.positions.len() ==> #[trigger] self.has_user(self.positions[i].minter@)
                && self.user_ids(self.positions[i].minter@).contains(self.positions[i].id)
    }

    /// One expiry per debt token and one identifier per market.
    pub open spec fn keys_unique(self) -> bool {
        &&& forall|i: int, j: int|
            0 <= i < j < self.debt_expiration.len() ==> #[trigger] self.debt_expiration[i].0
                != #[trigger] self.debt_expiration[j].0
        &&& forall|i: int, j: int|
            0 <= i < j < self.markets.len() ==> !market_key_is(
                #[trigger] self.markets[i],
                (#[trigger] self.markets[j]).0,
                self.markets[j].1,
            )
    }

    /// The invariant that every reachable state satisfies.
    pub open spec fn wf(self) -> bool {
        &&& self.positions_ordered()
        &&& self.user_lists_sound()
        &&& self.positions_listed()
        &&& self.keys_unique()
    }
}

/// Whether a position with identifier `id` is in `s`.
pub open spec fn seq_has_position(s: Seq<MintPosition>, id: u64) -> bool {
    exists|i: int| 0 <= i < s.len() && #[trigger] s[i].id == id
}

/// An index of `s` holding the position `id`.
pub open spec fn seq_position_index(s: Seq<MintPosition>, id: u64) -> int {
    choose|i: int| 0 <= i < s.len() && #[trigger] s[i].id == id
}

/// Whether `s` holds a list for `user`.
pub open spec fn seq_has_user(s: Seq<(String, Seq<u64>)>, user: Seq<char>) -> bool {
    exists|i: int| 0 <= i < s.len() && #[trigger] s[i].0@ == user
}

/// An index of `s` holding `user`'s list.
pub open spec fn seq_user_index(s: Seq<(String, Seq<u64>)>, user: Seq<char>) -> int {
    choose|i: int| 0 <= i < s.len() && #[trigger] s[i].0@ == user
}

/// The identifiers `s` lists for `user`; none for a user without a list.
pub open spec fn seq_user_ids(s: Seq<(String, Seq<u64>)>, user: Seq<char>) -> Seq<u64> {
    if seq_has_user(s, user) {
        s[seq_user_index(s, user)].1
    } else {
        Seq::empty()
    }
}

/// Whether `s` holds an entry under `key`.
pub open spec fn seq_has_key<V>(s: Seq<(Seq<char>, V)>, key: Seq<char>) -> bool {
    exists|i: int| 0 <= i < s.len() && #[trigger] s[i].0 == key
}

/// An index of `s` holding an entry under `key`.
pub open spec fn seq_key_index<V>(s: Seq<(Seq<char>, V)>, key: Seq<char>) -> int {
    choose|i: int| 0 <= i < s.len() && #[trigger] s[i].0 == key
}

/// Whether a market entry is the one for the pair `(base, quote)`.
pub open spec fn market_key_is(m: (Seq<char>, Seq<char>, Seq<char>), base: Seq<char>, quote: Seq<char>) -> bool {
    m.0 == base && m.1 == quote
}

/// Whether `s` holds the market for `(base, quote)`.
pub open spec fn seq_has_market(s: Seq<(Seq<char>, Seq<char>, Seq<char>)>, base: Seq<char>, quote: Seq<char>) -> bool {
    exists|i: int| 0 <= i < s.len() && #[trigger] market_key_is(s[i], base, quote)
}

/// An index of `s` holding the market for `(base, quote)`.
pub open spec fn seq_market_index(s: Seq<(Seq<char>, Seq<char>, Seq<char>)>, base: Seq<char>, quote: Seq<char>) -> int {
    choose|i: int| 0 <= i < s.len() && #[trigger] market_key_is(s[i], base, quote)
}

/// Under the invariant, the position found at index `i` is the one that
/// `position_index` names.
pub proof fn lemma_position_index(m: ContractModel, i: int)
    requires
        m.positions_ordered(),
        0 <= i < m.positions.len(),
    ensures
        m.has_position(m.positions[i].id),
        m.position_index(m.positions[i].id) == i,
{
    let id = m.positions[i].id;
    assert(m.positions[i].id == id);
    let j = m.position_index(id);
    if j < i {
        assert(m.positions[j].id < m.positions[i].id);
    } else if j > i {
        assert(m.positions[i].id < m.positions[j].id);
    }
}

/// Under the invariant, the list found at index `i` is the one that
/// `user_index` names.
pub proof fn lemma_user_index(m: ContractModel, i: int)
    requires
        m.user_lists_sound(),
        0 <= i < m.user_positions.len(),
    ensures
        m.has_user(m.user_positions[i].0@),
        m.user_index(m.user_positions[i].0@) == i,
        m.user_ids(m.user_positions[i].0@) == m.user_positions[i].1,
{
    let u = m.user_positions[i].0@;
    assert(m.user_positions[i].0@ == u);
    let j = m.user_index(u);
    if j < i {
        assert(m.user_positions[j].0@ != m.user_positions[i].0@);
    } else if j > i {
        assert(m.user_positions[i].0@ != m.user_positions[j].0@);
    }
}

/// Under the invariant, the expiry found at index `i` is the one that
/// `debt_index` names.
pub proof fn lemma_debt_index(m: ContractModel, i: int)
    requires
        m.keys_unique(),
        0 <= i < m.debt_expiration.len(),
    ensures
        m.has_debt_token(m.debt_expiration[i].0),
        m.debt_index(m.debt_expiration[i].0) == i,
{
    let d = m.debt_expiration[i].0;
    assert(m.debt_expiration[i].0 == d);
    let j = m.debt_index(d);
    if j < i {
        assert(m.debt_expiration[j].0 != m.debt_expiration[i].0);
    } else if j > i {
        assert(m.debt_expiration[i].0 != m.debt_expiration[j].0);
    }
}

/// Under the invariant, the market found at index `i` is the one that
/// `market_index` names.
pub proof fn lemma_market_index(m: ContractModel, i: int)
    requires
        m.keys_unique(),
        0 <= i < m.markets.len(),
    ensures
        m.has_market(m.markets[i].0, m.markets[i].1),
        m.market_index(m.markets[i].0, m.markets[i].1) == i,
{
    let b = m.markets[i].0;
    let q = m.markets[i].1;
    assert(market_key_is(m.markets[i], b, q));
    let j = m.market_index(b, q);
    if j < i {
        assert(!market_key_is(m.markets[j], m.markets[i].0, m.markets[i].1));
    } else if j > i {
        assert(!market_key_is(m.markets[i], m.markets[j].0, m.markets[j].1));
    }
}

/// The invariant's parts about positions and users' lists look only at
/// those and at the tracker.
pub proof fn lemma_positions_frame(m: ContractModel, n: ContractModel)
    requires
        m.positions_ordered(),
        m.user_lists_sound(),
        m.positions_listed(),
        n.positions == m.positions,
        n.user_positions == m.user_positions,
        n.tracker_mint_id == m.tracker_mint_id,
    ensures
        n.positions_ordered(),
        n.user_lists_sound(),
        n.positions_listed(),
{
    assert forall|i: int| 0 <= i < n.positions.len() implies #[trigger] n.has_user(
        n.positions[i].minter@,
    ) && n.user_ids(n.positions[i].minter@).contains(n.positions[i].id) by {
        assert(m.has_user(m.positions[i].minter@));
    }
}

impl Contract {
    /// The index of the position with identifier `id`, if it is open.
    pub fn find_position(&self, id: u64) -> (r: Option<usize>)
        ensures
            match r {
                Some(i) => i < self@.positions.len() && self@.positions[i as int].id == id,
                None => !self@.has_position(id),
            },
    {
        let mut i: usize = 0;
        while i < self.mint_positions.len()
            invariant
                i <= self.mint_positions@.len(),
                forall|j: int| 0 <= j < i ==> #[trigger] self.mint_positions@[j].id != id,
            decreases self.mint_positions@.len() - i,
        {
            if self.mint_positions[i].id == id {
                return Some(i);
            }
            i = i + 1;
        }
        None
    }

    /// The index of `user`'s list of positions, if there is one.
    pub fn find_user(&self, user: &String) -> (r: Option<usize>)
        ensures
            match r {
                Some(i) => i < self@.user_positions.len() && self@.user_positions[i as int].0@
                    == user@,
                None => !self@.has_user(user@),
            },
    {
        let mut i: usize = 0;
        while i < self.user_mint_positions.len()
            invariant
                i <= self.user_mint_positions@.len(),
                forall|j: int|
                    0 <= j < i ==> #[trigger] self.user_mint_positions@[j].user@ != user@,
            decreases self.user_mint_positions@.len() - i,
        {
            if self.user_mint_positions[i].user == *user {
                return Some(i);
            }
            i = i + 1;
        }
        proof {
            assert forall|j: int| 0 <= j < self@.user_positions.len() implies #[trigger] self@.user_positions[j].0@ != user@ by {
                assert(self@.user_positions[j].0 == self.user_mint_positions@[j].user);
            }
        }
        None
    }

    /// The index of `denom`'s expiry, if the token is registered.
    pub fn find_debt_token(&self, denom: &String) -> (r: Option<usize>)
        ensures
            match r {
                Some(i) => i < self@.debt_expiration.len() && self@.debt_expiration[i as int].0
                    == denom@,
                None => !self@.has_debt_token(denom@),
            },
    {
        let mut i: usize = 0;
        while i < self.debt_expiration.len()
            invariant
                i <= self.debt_expiration@.len(),
                forall|j: int| 0 <= j < i ==> #[trigger] self.debt_expiration@[j].denom@ != denom@,
            decreases self.debt_expiration@.len() - i,
        {
            if self.debt_expiration[i].denom == *denom {
                return Some(i);
            }
            i = i + 1;
        }
        proof {
            assert forall|j: int| 0 <= j < self@.debt_expiration.len() implies #[trigger] self@.debt_expiration[j].0 != denom@ by {
                assert(self@.debt_expiration[j].0 == self.debt_expiration@[j].denom@);
            }
        }
        None
    }

    /// The index of the market for `(base, quote)`, if it is registered.
    pub fn find_market(&self, base: &String, quote: &String) -> (r: Option<usize>)
        ensures
            match r {
                Some(i) => i < self@.markets.len() && market_key_is(
                    self@.markets[i as int],
                    base@,
                    quote@,
                ),
                None => !self@.has_market(base@, quote@),
            },
    {
        let mut i: usize = 0;
        while i < self.market_ids.len()
            invariant
                i <= self.market_ids@.len(),
                forall|j: int|
                    0 <= j < i ==> !#[trigger] market_key_is(self@.markets[j], base@, quote@),
            decreases self.market_ids@.len() - i,
        {
            if self.market_ids[i].base_currency == *base && self.market_ids[i].quote_currency
                == *quote {
                return Some(i);
            }
            i = i + 1;
        }
        None
    }
}


impl Contract {
    /// The identifier of the market for `(base, quote)`, if it is registered.
    pub fn market_id(&self, base: &String, quote: &String) -> (r: Option<String>)
        requires
            self@.wf(),
        ensures
            r is Some <==> self@.has_market(base@, quote@),
            r matches Some(id) ==> id@ == self@.market_id(base@, quote@),
    {
        match self.find_market(base, quote) {
            None => None,
            Some(i) => {
                proof {
                    lemma_market_index(self@, i as int);
                }
                Some(self.market_ids[i].market_id.clone())
            },
        }
    }

    /// Whether the positions are in strictly increasing order of identifier,
    /// all below the tracker.
    fn check_positions_ordered(&self) -> (r: bool)
        ensures
            r == self@.positions_ordered(),
    {
        let ghost s = self@.positions;
        let n = self.mint_positions.len();
        let mut k: usize = 0;
        while k < n
            invariant
                n == s.len(),
                s == self@.positions,
                k <= n,
                forall|i: int, j: int| 0 <= i < j < k ==> #[trigger] s[i].id < #[trigger] s[j].id,
                forall|i: int| 0 <= i < k ==> #[trigger] s[i].id < self.tracker_mint_id,
            decreases n - k,
        {
            if self.mint_positions[k].id >= self.tracker_mint_id {
                return false;
            }
            if k > 0 && self.mint_positions[k - 1].id >= self.mint_positions[k].id {
                assert(!(s[k - 1].id < s[k as int].id));
                return false;
            }
            assert forall|i: int, j: int| 0 <= i < j < k + 1 implies #[trigger] s[i].id < #[trigger] s[j].id by {
                if j == k && i < k - 1 {
                    assert(s[i].id < s[k - 1].id);
                }
            }
            k = k + 1;
        }
        true
    }

    /// Whether the users' lists are keyed by distinct users and name
    /// distinct identifiers below the tracker.
    fn check_user_lists(&self) -> (r: bool)
        ensures
            r == self@.user_lists_sound(),
    {
        let ghost u = self@.user_positions;
        let n = self.user_mint_positions.len();
        let mut a: usize = 0;
        while a < n
            invariant
                n == u.len(),
                u == self@.user_positions,
                a <= n,
                forall|i: int, j: int| 0 <= i < j < n && i < a ==> #[trigger] u[i].0@ != #[trigger] u[j].0@,
                forall|i: int, k: int| 0 <= i < a && 0 <= k < u[i].1.len() ==> #[trigger] u[i].1[k] < self.tracker_mint_id,
                forall|i: int, k1: int, k2: int|
                    0 <= i < a && 0 <= k1 < k2 < u[i].1.len() ==> #[trigger] u[i].1[k1] != #[trigger] u[i].1[k2],
            decreases n - a,
        {
            let mut b: usize = a + 1;
            while b < n
                invariant
                    n == u.len(),
                    u == self@.user_positions,
                    a < n,
                    a + 1 <= b <= n,
                    forall|j: int| a < j < b ==> u[a as int].0@ != #[trigger] u[j].0@,
                decreases n - b,
            {
                if self.user_mint_positions[a].user == self.user_mint_positions[b].user {
                    assert(u[a as int].0@ == u[b as int].0@);
                    return false;
                }
                b = b + 1;
            }
            let ids = &self.user_mint_positions[a].ids;
            assert(ids@ == u[a as int].1);
            let m = ids.len();
            let mut k1: usize = 0;
            while k1 < m
                invariant
                    n == u.len(),
                    u == self@.user_positions,
                    a < n,
                    m == ids@.len(),
                    ids@ == u[a as int].1,
                    k1 <= m,
                    forall|k: int| 0 <= k < k1 ==> #[trigger] ids@[k] < self.tracker_mint_id,
                    forall|x: int, y: int| 0 <= x < y < m && x < k1 ==> #[trigger] ids@[x] != #[trigger] ids@[y],
                decreases m - k1,
            {
                if ids[k1] >= self.tracker_mint_id {
                    assert(u[a as int].1[k1 as int] >= self.tracker_mint_id);
                    return false;
                }
                let mut k2: usize = k1 + 1;
                while k2 < m
                    invariant
                        n == u.len(),
                        u == self@.user_positions,
                        a < n,
                        ids@ == u[a as int].1,
                        m == ids@.len(),
                        k1 < m,
                        k1 + 1 <= k2 <= m,
                        forall|y: int| k1 < y < k2 ==> ids@[k1 as int] != #[trigger] ids@[y],
                    decreases m - k2,
                {
                    if ids[k1] == ids[k2] {
                        assert(u[a as int].1[k1 as int] == u[a as int].1[k2 as int]);
                        return false;
                    }
                    k2 = k2 + 1;
                }
                k1 = k1 + 1;
            }
            a = a + 1;
        }
        true
    }

    /// Whether every position is listed under its minter.
    fn check_positions_listed(&self) -> (r: bool)
        requires
            self@.user_lists_sound(),
        ensures
            r == self@.positions_listed(),
    {
        let ghost s = self@.positions;
        let n = self.mint_positions.len();
        let mut k: usize = 0;
        while k < n
            invariant
                n == s.len(),
                s == self@.positions,
                self@.user_lists_sound(),
                k <= n,
                forall|i: int|
                    0 <= i < k ==> #[trigger] self@.has_user(s[i].minter@) && self@.user_ids(
                        s[i].minter@,
                    ).contains(s[i].id),
            decreases n - k,
        {
            let ui = match self.find_user(&self.mint_positions[k].minter) {
                None => {
                    return false;
                },
                Some(ui) => ui,
            };
            proof {
                lemma_user_index(self@, ui as int);
            }
            let ids = &self.user_mint_positions[ui].ids;
            let id = self.mint_positions[k].id;
            let mut j: usize = 0;
            let mut found = false;
            while j < ids.len()
                invariant
                    j <= ids@.len(),
                    forall|i: int|
                        0 <= i < k ==> #[trigger] self@.has_user(s[i].minter@) && self@.user_ids(
                            s[i].minter@,
                        ).contains(s[i].id),
                    found ==> ids@.contains(id),
                    !found ==> forall|x: int| 0 <= x < j ==> ids@[x] != id,
                decreases ids@.len() - j,
            {
                if ids[j] == id {
                    found = true;
                }
                j = j + 1;
            }
            assert(self@.user_ids(s[k as int].minter@) == ids@);
            if !found {
                return false;
            }
            assert(id == s[k as int].id);
            assert(ids@.contains(id));
            assert(self@.has_user(s[k as int].minter@));
            assert(self@.user_ids(s[k as int].minter@).contains(s[k as int].id));
            assert forall|i: int| 0 <= i < k + 1 implies #[trigger] self@.has_user(s[i].minter@) && self@.user_ids(
                s[i].minter@,
            ).contains(s[i].id) by {
                if i == k {
                    assert(self@.user_ids(s[k as int].minter@).contains(s[k as int].id));
                }
            }
            k = k + 1;
        }
        true
    }

    /// Whether debt tokens and markets are keyed uniquely.
    fn check_keys_unique(&self) -> (r: bool)
        ensures
            r == self@.keys_unique(),
    {
        let ghost d = self@.debt_expiration;
        let n = self.debt_expiration.len();
        let mut a: usize = 0;
        while a < n
            invariant
                n == d.len(),
                d == self@.debt_expiration,
                a <= n,
                forall|i: int, j: int| 0 <= i < j < n && i < a ==> #[trigger] d[i].0 != #[trigger] d[j].0,
            decreases n - a,
        {
            let mut b: usize = a + 1;
            while b < n
                invariant
                    n == d.len(),
                    d == self@.debt_expiration,
                    a < n,
                    a + 1 <= b <= n,
                    forall|j: int| a < j < b ==> d[a as int].0 != #[trigger] d[j].0,
                decreases n - b,
            {
                if self.debt_expiration[a].denom == self.debt_expiration[b].denom {
                    assert(d[a as int].0 == d[b as int].0);
                    return false;
                }
                b = b + 1;
            }
            a = a + 1;
        }
        let ghost mk = self@.markets;
        let n2 = self.market_ids.len();
        let mut a2: usize = 0;
        while a2 < n2
            invariant
                n2 == mk.len(),
                mk == self@.markets,
                d == self@.debt_expiration,
                forall|i: int, j: int| 0 <= i < j < d.len() ==> #[trigger] d[i].0 != #[trigger] d[j].0,
                a2 <= n2,
                forall|i: int, j: int|
                    0 <= i < j < n2 && i < a2 ==> !market_key_is(#[trigger] mk[i], (#[trigger] mk[j]).0, mk[j].1),
            decreases n2 - a2,
        {
            let mut b2: usize = a2 + 1;
            while b2 < n2
                invariant
                    n2 == mk.len(),
                    mk == self@.markets,
                    a2 < n2,
                    a2 + 1 <= b2 <= n2,
                    forall|j: int| a2 < j < b2 ==> !market_key_is(mk[a2 as int], (#[trigger] mk[j]).0, mk[j].1),
                decreases n2 - b2,
            {
                if self.market_ids[a2].base_currency == self.market_ids[b2].base_currency
                    && self.market_ids[a2].quote_currency == self.market_ids[b2].quote_currency {
                    assert(market_key_is(mk[a2 as int], mk[b2 as int].0, mk[b2 as int].1));
                    return false;
                }
                b2 = b2 + 1;
            }
            a2 = a2 + 1;
        }
        true
    }

    /// Whether the state satisfies the invariant; state read back from
    /// storage is checked with this before any operation runs on it.
    pub fn check_wf(&self) -> (r: bool)
        ensures
            r == self@.wf(),
    {
        if !self.check_positions_ordered() {
            return false;
        }
        if !self.check_user_lists() {
            return false;
        }
        if !self.check_positions_listed() {
            return false;
        }
        self.check_keys_unique()
    }
}

} // verus!
