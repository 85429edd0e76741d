//! The database: a player store with its secondary indexes (a name trie,
//! a tag index and per-position rating trees), a user store, and the
//! query dispatcher.

use vstd::prelude::*;
use vstd::multiset::Multiset;

use crate::models::{position_views, Jogador, JogadorComRating, Rating, Tag, User};
use crate::parser::Query;
use crate::structures::btree::BTree;
use crate::structures::hash_table::HashTable;
use crate::structures::multi_tst::MultiTst;
use crate::text::{lower_of, norm_of, to_lower};

use crate::DbError;

verus! {

/// Bucket counts of the three hash tables, sized for the expected data.
pub const JOGADOR_SIZE: usize = 22807;

pub const TAG_SIZE: usize = 438001;

pub const USER_SIZE: usize = 200001;

/// A player must have more ratings than this to enter the per-position
/// ranking trees.
pub const POPULARITY_THRESHOLD: u32 = 1000;

/// Two players carrying the same record data.
pub open spec fn player_like(a: JogadorComRating, b: JogadorComRating) -> bool {
    &&& a.spec_id() == b.spec_id()
    &&& a.spec_name() == b.spec_name()
    &&& a.spec_positions() == b.spec_positions()
    &&& a.spec_rating_sum() == b.spec_rating_sum()
    &&& a.spec_rating_count() == b.spec_rating_count()
    &&& a.spec_tags() == b.spec_tags()
}

/// Two users carrying the same identifier and history.
pub open spec fn user_like(a: User, b: User) -> bool {
    a.spec_id() == b.spec_id() && a.spec_ratings() == b.spec_ratings()
}

/// The user store answers identically in both databases.
pub open spec fn users_same(a: DB, b: DB) -> bool {
    forall|id: u32|
        (#[trigger] b.has_user(id)) == a.has_user(id) && (a.has_user(id) ==> b.user_at(id)
            == a.user_at(id))
}

/// The tag index answers identically in both databases.
pub open spec fn tags_same(a: DB, b: DB) -> bool {
    forall|t: Seq<char>|
        (#[trigger] b.has_tag(t)) == a.has_tag(t) && (a.has_tag(t) ==> b.tag_ids(t) == a.tag_ids(
            t,
        ))
}

/// The name trie answers identically in both databases.
pub open spec fn names_same(a: DB, b: DB) -> bool {
    forall|w: Seq<char>|
        (#[trigger] b.has_name(w)) == a.has_name(w) && (a.has_name(w) ==> b.name_ids(w)
            == a.name_ids(w))
}

/// The ranking trees answer identically in both databases.
pub open spec fn ranks_same(a: DB, b: DB) -> bool {
    forall|p: Seq<char>|
        (#[trigger] b.has_rank(p)) == a.has_rank(p) && (a.has_rank(p) ==> b.rank_at(p) == a.rank_at(
            p,
        ))
}

/// The ranking key of a player aggregate: the fixed-point mean rating,
/// clamped into the signed 64-bit range.
pub open spec fn rating_key_of(p: JogadorComRating) -> i64 {
    let m: int = if p.spec_rating_count() == 0 {
        0
    } else {
        p.spec_rating_sum() as int / p.spec_rating_count() as int
    };
    if m > i64::MAX as int {
        i64::MAX
    } else {
        m as i64
    }
}

/// The ranking pairs one stored entry contributes for a position,
/// counting its first `k` position codes: one (mean key, id) pair per
/// occurrence of the position, and only when the entry's rating count
/// exceeds the popularity threshold.
pub open spec fn entry_contrib(
    e: (u32, JogadorComRating),
    pos: Seq<char>,
    k: int,
) -> Multiset<(i64, u32)>
    decreases k,
{
    if k <= 0 {
        Multiset::empty()
    } else {
        let base = entry_contrib(e, pos, k - 1);
        if e.1.spec_rating_count() > POPULARITY_THRESHOLD && e.1.spec_positions()[k - 1] == pos {
            base.insert((rating_key_of(e.1), e.0))
        } else {
            base
        }
    }
}

/// The ranking pairs the first `i` stored entries contribute for a
/// position.
pub open spec fn contrib_upto(
    records: Seq<(u32, JogadorComRating)>,
    i: int,
    pos: Seq<char>,
) -> Multiset<(i64, u32)>
    decreases i,
{
    if i <= 0 {
        Multiset::empty()
    } else {
        contrib_upto(records, i - 1, pos).add(
            entry_contrib(records[i - 1], pos, records[i - 1].1.spec_positions().len() as int),
        )
    }
}

/// The ranking pairs every stored entry contributes for a position.
pub open spec fn rank_contrib(
    records: Seq<(u32, JogadorComRating)>,
    pos: Seq<char>,
) -> Multiset<(i64, u32)> {
    contrib_upto(records, records.len() as int, pos)
}

/// Whether one of the first `i` stored entries lists the position.
pub open spec fn pos_seen_upto(
    records: Seq<(u32, JogadorComRating)>,
    i: int,
    pos: Seq<char>,
) -> bool {
    exists|e: int, x: int|
        0 <= e < i && 0 <= x < records[e].1.spec_positions().len()
            && #[trigger] records[e].1.spec_positions()[x] == pos
}

/// Whether any stored entry lists the position.
pub open spec fn position_listed(records: Seq<(u32, JogadorComRating)>, pos: Seq<char>) -> bool {
    pos_seen_upto(records, records.len() as int, pos)
}

/// Whether the position occurs among the first `k` codes of a list.
pub open spec fn in_first(ps: Seq<Seq<char>>, k: int, pos: Seq<char>) -> bool {
    exists|x: int| 0 <= x < k && x < ps.len() && #[trigger] ps[x] == pos
}

/// The ranking pairs a position's tree already holds, empty when it has
/// no tree.
pub open spec fn prior_rank(db: DB, p: Seq<char>) -> Multiset<(i64, u32)> {
    if db.has_rank(p) {
        db.rank_at(p).spec_entries().to_multiset()
    } else {
        Multiset::empty()
    }
}

/// An entry that never lists the position contributes nothing for it.
proof fn lemma_entry_contrib_empty(e: (u32, JogadorComRating), pos: Seq<char>, k: int)
    requires
        !in_first(e.1.spec_positions(), k, pos),
        k <= e.1.spec_positions().len(),
    ensures
        entry_contrib(e, pos, k) == Multiset::<(i64, u32)>::empty(),
    decreases k,
{
    if k > 0 {
        assert(!in_first(e.1.spec_positions(), k - 1, pos));
        lemma_entry_contrib_empty(e, pos, k - 1);
        assert(e.1.spec_positions()[k - 1] != pos);
    }
}

/// Entries that never list the position contribute nothing for it.
proof fn lemma_contrib_upto_empty(records: Seq<(u32, JogadorComRating)>, i: int, pos: Seq<char>)
    requires
        !pos_seen_upto(records, i, pos),
        i <= records.len(),
    ensures
        contrib_upto(records, i, pos) == Multiset::<(i64, u32)>::empty(),
    decreases i,
{
    if i > 0 {
        assert(!pos_seen_upto(records, i - 1, pos));
        lemma_contrib_upto_empty(records, i - 1, pos);
        assert(!in_first(records[i - 1].1.spec_positions(), records[i
            - 1].1.spec_positions().len() as int, pos)) by {
            if in_first(records[i - 1].1.spec_positions(), records[i
                - 1].1.spec_positions().len() as int, pos) {
                let x = choose|x: int|
                    0 <= x < records[i - 1].1.spec_positions().len() && #[trigger] records[i
                        - 1].1.spec_positions()[x] == pos;
                assert(pos_seen_upto(records, i, pos));
            }
        }
        lemma_entry_contrib_empty(
            records[i - 1],
            pos,
            records[i - 1].1.spec_positions().len() as int,
        );
        assert(Multiset::<(i64, u32)>::empty().add(Multiset::<(i64, u32)>::empty())
            =~= Multiset::<(i64, u32)>::empty());
    }
}

struct JogadoresDB {
    ht: HashTable<u32, JogadorComRating>,
    full_trie: MultiTst,
    tag: HashTable<String, Vec<u32>>,
    pos_ht: HashTable<String, BTree<u32>>,
}

struct UsersDB {
    ht: HashTable<u32, User>,
}

pub struct DB {
    jogadores: JogadoresDB,
    users: UsersDB,
}

/// What a query evaluates to: one player, a list of players, or a user.
#[derive(Debug)]
pub enum QueryResult {
    Jogador(JogadorComRating),
    Jogadores(Vec<JogadorComRating>),
    User(User),
}

impl DB {
    /// Whether a player with this identifier was ingested.
    pub closed spec fn has_player(self, id: u32) -> bool {
        self.jogadores.ht.contains(id)
    }

    /// The player record the store answers for this identifier.
    pub closed spec fn player_at(self, id: u32) -> JogadorComRating {
        self.jogadores.ht.spec_get(id).unwrap()
    }

    pub closed spec fn has_user(self, id: u32) -> bool {
        self.users.ht.contains(id)
    }

    pub closed spec fn user_at(self, id: u32) -> User {
        self.users.ht.spec_get(id).unwrap()
    }

    /// Whether the (lowercased) tag text has an id list.
    pub closed spec fn has_tag(self, t: Seq<char>) -> bool {
        self.jogadores.tag.contains(t)
    }

    /// The player ids recorded under the (lowercased) tag text, in
    /// arrival order, duplicates kept.
    pub closed spec fn tag_ids(self, t: Seq<char>) -> Seq<u32> {
        self.jogadores.tag.spec_get(t).unwrap()@
    }

    /// Whether the (normalised) name word has an id list in the name
    /// trie.
    pub closed spec fn has_name(self, w: Seq<char>) -> bool {
        self.jogadores.full_trie.has_list(w)
    }

    /// The player ids stored under the (normalised) name word.
    pub closed spec fn name_ids(self, w: Seq<char>) -> Seq<u32> {
        self.jogadores.full_trie.list_at(w)
    }

    /// The exact id sequence a name search flattens to for a normalised
    /// prefix: matching words in trie traversal order, each word's ids
    /// in insertion order.
    pub closed spec fn search_ids(self, pfx: Seq<char>) -> Seq<u32> {
        self.jogadores.full_trie.spec_found_ids(pfx)
    }

    /// Whether a ranking tree exists for the position code.
    pub closed spec fn has_rank(self, p: Seq<char>) -> bool {
        self.jogadores.pos_ht.contains(p)
    }

    /// The ranking tree of the position code.
    pub closed spec fn rank_at(self, p: Seq<char>) -> BTree<u32> {
        self.jogadores.pos_ht.spec_get(p).unwrap()
    }

    /// Every stored player entry in table order, shadowed duplicates
    /// included, each as its key paired with its record.
    pub closed spec fn stored_records(self) -> Seq<(u32, JogadorComRating)> {
        self.jogadores.ht.entries()
    }

    /// The database invariant: the tables are well formed, every stored
    /// player aggregate is internally consistent, and every id in a tag
    /// list, a name list or a ranking tree belongs to a stored player.
    pub closed spec fn wf(self) -> bool {
        &&& self.jogadores.ht.wf()
        &&& self.jogadores.tag.wf()
        &&& self.jogadores.pos_ht.wf()
        &&& self.jogadores.full_trie.wf()
        &&& self.users.ht.wf()
        &&& (forall|id: u32|
            #[trigger] self.users.ht.spec_get(id) is Some ==> self.users.ht.spec_get(
                id,
            ).unwrap().spec_id() == id)
        &&& (forall|id: u32|
            #[trigger] self.jogadores.ht.spec_get(id) is Some ==> self.jogadores.ht.spec_get(
                id,
            ).unwrap().wf() && self.jogadores.ht.spec_get(id).unwrap().spec_id() == id)
        &&& (forall|t: Seq<char>, j: int|
            self.jogadores.tag.spec_get(t) is Some && 0 <= j < self.jogadores.tag.spec_get(
                t,
            ).unwrap()@.len() ==> self.jogadores.ht.contains(
                #[trigger] self.jogadores.tag.spec_get(t).unwrap()@[j],
            ))
        &&& (forall|w: Seq<char>, j: int|
            self.jogadores.full_trie.has_list(w) && 0 <= j < self.jogadores.full_trie.list_at(
                w,
            ).len() ==> self.jogadores.ht.contains(
                #[trigger] self.jogadores.full_trie.list_at(w)[j],
            ))
        &&& (forall|p: Seq<char>|
            #[trigger] self.jogadores.pos_ht.spec_get(p) is Some ==> self.jogadores.pos_ht.spec_get(
                p,
            ).unwrap().wf())
        &&& (forall|p: Seq<char>, j: int|
            self.jogadores.pos_ht.spec_get(p) is Some && 0 <= j < self.jogadores.pos_ht.spec_get(
                p,
            ).unwrap().spec_entries().len() ==> self.jogadores.ht.contains(
                (#[trigger] self.jogadores.pos_ht.spec_get(p).unwrap().spec_entries()[j]).1,
            ))
    }

    pub fn new() -> (db: Self)
        ensures
            db.wf(),
            forall|id: u32| !(#[trigger] db.has_player(id)),
            forall|id: u32| !(#[trigger] db.has_user(id)),
            forall|t: Seq<char>| !(#[trigger] db.has_tag(t)),
            forall|w: Seq<char>| !(#[trigger] db.has_name(w)),
            forall|p: Seq<char>| !(#[trigger] db.has_rank(p)),
    {
        let jogadores = JogadoresDB {
            ht: HashTable::new(JOGADOR_SIZE),
            full_trie: MultiTst::new(),
            tag: HashTable::new(TAG_SIZE),
            pos_ht: HashTable::new(101),
        };
        let users = UsersDB { ht: HashTable::new(USER_SIZE) };
        let db = DB { jogadores, users };
        proof {
            assert forall|id: u32| !(#[trigger] db.has_player(id)) by {
                reveal_empty_table(db.jogadores.ht, id@);
            }
            assert forall|id: u32| !(#[trigger] db.has_user(id)) by {
                reveal_empty_table(db.users.ht, id@);
            }
            assert forall|t: Seq<char>| !(#[trigger] db.has_tag(t)) by {
                reveal_empty_table(db.jogadores.tag, t);
            }
            assert forall|p: Seq<char>| !(#[trigger] db.has_rank(p)) by {
                reveal_empty_table(db.jogadores.pos_ht, p);
            }
        }
        db
    }

    /// Stores the ingested player record under its identifier and
    /// registers its name in the name trie. Callers must guarantee
    /// identifier uniqueness: a duplicate insert stores a second,
    /// shadowed entry, and lookups keep answering the first.
    pub fn insert_jogador(&mut self, jogador: Jogador) -> (r: Result<(), DbError>)
        requires
            old(self).wf(),
        ensures
            r is Ok,
            final(self).wf(),
            final(self).has_player(jogador.spec_id()),
            !old(self).has_player(jogador.spec_id()) ==> ({
                let p = final(self).player_at(jogador.spec_id());
                &&& p.spec_id() == jogador.spec_id()
                &&& p.spec_name() == jogador.spec_name()
                &&& p.spec_rating_sum() == 0
                &&& p.spec_rating_count() == 0
                &&& p.spec_tags() == Seq::<Seq<char>>::empty()
            }),
            old(self).has_player(jogador.spec_id()) ==> final(self).player_at(jogador.spec_id())
                == old(self).player_at(jogador.spec_id()),
            forall|id: u32|
                id != jogador.spec_id() ==> (#[trigger] final(self).has_player(id)) == old(
                    self,
                ).has_player(id) && (old(self).has_player(id) ==> final(self).player_at(id) == old(
                    self,
                ).player_at(id)),
            norm_of(jogador.spec_name()).len() > 0 ==> ({
                let w = norm_of(jogador.spec_name());
                let oldl = if old(self).has_name(w) {
                    old(self).name_ids(w)
                } else {
                    Seq::<u32>::empty()
                };
                &&& final(self).has_name(w)
                &&& final(self).name_ids(w) == (if crate::structures::multi_tst::list_has(
                    oldl,
                    jogador.spec_id(),
                ) {
                    oldl
                } else {
                    oldl.push(jogador.spec_id())
                })
            }),
            forall|w2: Seq<char>|
                w2 != norm_of(jogador.spec_name()) ==> (#[trigger] final(self).has_name(w2)) == old(
                    self,
                ).has_name(w2) && (old(self).has_name(w2) ==> final(self).name_ids(w2) == old(
                    self,
                ).name_ids(w2)),
            users_same(*old(self), *final(self)),
            tags_same(*old(self), *final(self)),
            ranks_same(*old(self), *final(self)),
    {
        let id = jogador.get_id();
        let name = jogador.get_name().clone();
        let record = JogadorComRating::from(jogador);
        let _ = self.jogadores.ht.insert(&id, record);
        let r = self.jogadores.full_trie.insert(name, id);
        proof {
            assert(final(self).wf()) by {
                let a = *old(self);
                let b = *self;
                assert forall|id2: u32|
                    #[trigger] b.jogadores.ht.spec_get(id2) is Some implies b.jogadores.ht.spec_get(
                    id2,
                ).unwrap().wf() && b.jogadores.ht.spec_get(id2).unwrap().spec_id() == id2 by {
                    if id2 != id {
                        assert(b.jogadores.ht.spec_get(id2@) == a.jogadores.ht.spec_get(id2@));
                    }
                }
                assert forall|t: Seq<char>, j: int|
                    b.jogadores.tag.spec_get(t) is Some && 0 <= j < b.jogadores.tag.spec_get(
                        t,
                    ).unwrap()@.len() implies b.jogadores.ht.contains(
                    #[trigger] b.jogadores.tag.spec_get(t).unwrap()@[j],
                ) by {
                    assert(a.jogadores.ht.contains(b.jogadores.tag.spec_get(t).unwrap()@[j]));
                }
                assert forall|w: Seq<char>, j: int|
                    b.jogadores.full_trie.has_list(w) && 0 <= j < b.jogadores.full_trie.list_at(
                        w,
                    ).len() implies b.jogadores.ht.contains(
                    #[trigger] b.jogadores.full_trie.list_at(w)[j],
                ) by {
                    if w == norm_of(name@) && norm_of(name@).len() > 0 {
                        let oldl = if a.jogadores.full_trie.has_list(w) {
                            a.jogadores.full_trie.list_at(w)
                        } else {
                            Seq::<u32>::empty()
                        };
                        if j < oldl.len() {
                            assert(a.jogadores.ht.contains(oldl[j]));
                        }
                    } else {
                        assert(a.jogadores.full_trie.has_list(w) && a.jogadores.full_trie.list_at(
                            w,
                        ) == b.jogadores.full_trie.list_at(w));
                        assert(a.jogadores.ht.contains(b.jogadores.full_trie.list_at(w)[j]));
                    }
                }
                assert forall|p: Seq<char>, j: int|
                    b.jogadores.pos_ht.spec_get(p) is Some && 0 <= j
                        < b.jogadores.pos_ht.spec_get(p).unwrap().spec_entries().len() implies b.jogadores.ht.contains(
                    (#[trigger] b.jogadores.pos_ht.spec_get(p).unwrap().spec_entries()[j]).1,
                ) by {
                    assert(a.jogadores.ht.contains(
                        b.jogadores.pos_ht.spec_get(p).unwrap().spec_entries()[j].1,
                    ));
                }
            }
        }
        r
    }

    /// A copy of the stored player record, if the identifier is known.
    pub fn get_jogador(&self, id: u32) -> (r: Option<JogadorComRating>)
        requires
            self.wf(),
        ensures
            match r {
                Some(p) => self.has_player(id) && player_like(p, self.player_at(id)),
                None => !self.has_player(id),
            },
    {
        let r = self.jogadores.ht.get(&id);
        proof {
            if r is Some {
                assert(cloned::<JogadorComRating>(self.player_at(id), r->0));
            }
        }
        r
    }

    /// A copy of the stored user, if the identifier is known.
    pub fn get_user(&self, id: u32) -> (r: Option<User>)
        requires
            self.wf(),
        ensures
            match r {
                Some(u) => self.has_user(id) && user_like(u, self.user_at(id)),
                None => !self.has_user(id),
            },
    {
        let r = self.users.ht.get(&id);
        proof {
            if r is Some {
                assert(cloned::<User>(self.user_at(id), r->0));
            }
        }
        r
    }

    /// Routes a rating to the addressed player's aggregate and to the
    /// user's history, creating the user on first sight. Fails with
    /// `NotFound` when the player was never ingested, changing nothing.
    pub fn insert_rating(&mut self, rating: Rating) -> (r: Result<(), DbError>)
        requires
            old(self).wf(),
            old(self).has_player(rating.spec_player_id()) ==> old(self).player_at(
                rating.spec_player_id(),
            ).spec_rating_count() < u32::MAX,
        ensures
            final(self).wf(),
            r is Ok <==> old(self).has_player(rating.spec_player_id()),
            r is Err ==> r == Err::<(), DbError>(DbError::NotFound) && *final(self) == *old(self),
            r is Ok ==> ({
                let pid = rating.spec_player_id();
                let uid = rating.spec_user_id();
                &&& final(self).player_at(pid).spec_rating_sum() == old(self).player_at(
                    pid,
                ).spec_rating_sum() + rating.spec_score()
                &&& final(self).player_at(pid).spec_rating_count() == old(self).player_at(
                    pid,
                ).spec_rating_count() + 1
                &&& final(self).player_at(pid).spec_id() == old(self).player_at(pid).spec_id()
                &&& final(self).player_at(pid).spec_name() == old(self).player_at(pid).spec_name()
                &&& final(self).player_at(pid).spec_tags() == old(self).player_at(pid).spec_tags()
                &&& final(self).player_at(pid).spec_positions() == old(self).player_at(
                    pid,
                ).spec_positions()
                &&& (forall|id2: u32|
                    id2 != pid ==> (#[trigger] final(self).has_player(id2)) == old(
                        self,
                    ).has_player(id2) && (old(self).has_player(id2) ==> final(self).player_at(id2)
                        == old(self).player_at(id2)))
                &&& final(self).has_user(uid)
                &&& (old(self).has_user(uid) ==> final(self).user_at(uid).spec_ratings() == old(
                    self,
                ).user_at(uid).spec_ratings().push(rating) && final(self).user_at(uid).spec_id()
                    == old(self).user_at(uid).spec_id())
                &&& (!old(self).has_user(uid) ==> final(self).user_at(uid).spec_ratings() == seq![
                    rating,
                ] && final(self).user_at(uid).spec_id() == uid)
                &&& (forall|id2: u32|
                    id2 != uid ==> (#[trigger] final(self).has_user(id2)) == old(self).has_user(
                        id2,
                    ) && (old(self).has_user(id2) ==> final(self).user_at(id2) == old(
                        self,
                    ).user_at(id2)))
            }),
            names_same(*old(self), *final(self)),
            tags_same(*old(self), *final(self)),
            ranks_same(*old(self), *final(self)),
    {
        let pid = rating.get_sofifa_id();
        let uid = rating.get_user_id();
        if !self.jogadores.ht.contains_key(&pid) {
            return Err(DbError::NotFound);
        }
        match self.users.ht.get_mut(&uid) {
            Some(user) => {
                user.add_rating(&rating);
            },
            None => {
                let _ = self.users.ht.insert(&uid, User::from_rating(rating));
            },
        }
        match self.jogadores.ht.get_mut(&pid) {
            Some(player) => {
                player.add_rating(rating.get_rating());
            },
            None => {
                proof {
                    assert(false);
                }
            },
        }
        proof {
            let a = *old(self);
            let b = *self;
            assert(final(self).wf()) by {
                assert forall|id2: u32|
                    #[trigger] b.jogadores.ht.spec_get(id2) is Some implies b.jogadores.ht.spec_get(
                    id2,
                ).unwrap().wf() && b.jogadores.ht.spec_get(id2).unwrap().spec_id() == id2 by {
                    if id2 != pid {
                        assert(b.jogadores.ht.spec_get(id2@) == a.jogadores.ht.spec_get(id2@));
                    }
                }
                assert forall|t: Seq<char>, j: int|
                    b.jogadores.tag.spec_get(t) is Some && 0 <= j < b.jogadores.tag.spec_get(
                        t,
                    ).unwrap()@.len() implies b.jogadores.ht.contains(
                    #[trigger] b.jogadores.tag.spec_get(t).unwrap()@[j],
                ) by {
                    assert(a.jogadores.ht.contains(b.jogadores.tag.spec_get(t).unwrap()@[j]));
                }
                assert forall|w: Seq<char>, j: int|
                    b.jogadores.full_trie.has_list(w) && 0 <= j < b.jogadores.full_trie.list_at(
                        w,
                    ).len() implies b.jogadores.ht.contains(
                    #[trigger] b.jogadores.full_trie.list_at(w)[j],
                ) by {
                    assert(a.jogadores.ht.contains(b.jogadores.full_trie.list_at(w)[j]));
                }
                assert forall|p: Seq<char>, j: int|
                    b.jogadores.pos_ht.spec_get(p) is Some && 0 <= j
                        < b.jogadores.pos_ht.spec_get(p).unwrap().spec_entries().len() implies b.jogadores.ht.contains(
                    (#[trigger] b.jogadores.pos_ht.spec_get(p).unwrap().spec_entries()[j]).1,
                ) by {
                    assert(a.jogadores.ht.contains(
                        b.jogadores.pos_ht.spec_get(p).unwrap().spec_entries()[j].1,
                    ));
                }
            }
        }
        Ok(())
    }

    /// Records the tag: its player id is appended to the lowercased
    /// tag's id list (duplicates kept), and the tag text joins the
    /// player's own tag set unless already there. Fails with `NotFound`
    /// when the player was never ingested, changing nothing.
    pub fn insert_tag(&mut self, tag: Tag) -> (r: Result<(), DbError>)
        requires
            old(self).wf(),
        ensures
            final(self).wf(),
            r is Ok <==> old(self).has_player(tag.spec_id()),
            r is Err ==> r == Err::<(), DbError>(DbError::NotFound) && *final(self) == *old(self),
            r is Ok ==> ({
                let t = lower_of(tag.spec_tag());
                let id = tag.spec_id();
                let oldl = if old(self).has_tag(t) {
                    old(self).tag_ids(t)
                } else {
                    Seq::<u32>::empty()
                };
                &&& final(self).has_tag(t)
                &&& final(self).tag_ids(t) == oldl.push(id)
                &&& (forall|t2: Seq<char>|
                    t2 != t ==> (#[trigger] final(self).has_tag(t2)) == old(self).has_tag(t2) && (
                    old(self).has_tag(t2) ==> final(self).tag_ids(t2) == old(self).tag_ids(t2)))
                &&& final(self).player_at(id).spec_tags() == (if old(self).player_at(
                    id,
                ).spec_tags().contains(tag.spec_tag()) {
                    old(self).player_at(id).spec_tags()
                } else {
                    old(self).player_at(id).spec_tags().push(tag.spec_tag())
                })
                &&& final(self).player_at(id).spec_id() == old(self).player_at(id).spec_id()
                &&& final(self).player_at(id).spec_name() == old(self).player_at(id).spec_name()
                &&& final(self).player_at(id).spec_rating_sum() == old(self).player_at(
                    id,
                ).spec_rating_sum()
                &&& final(self).player_at(id).spec_rating_count() == old(self).player_at(
                    id,
                ).spec_rating_count()
                &&& (forall|id2: u32|
                    id2 != id ==> (#[trigger] final(self).has_player(id2)) == old(
                        self,
                    ).has_player(id2) && (old(self).has_player(id2) ==> final(self).player_at(id2)
                        == old(self).player_at(id2)))
            }),
            users_same(*old(self), *final(self)),
            names_same(*old(self), *final(self)),
            ranks_same(*old(self), *final(self)),
    {
        let id = tag.get_id();
        if !self.jogadores.ht.contains_key(&id) {
            return Err(DbError::NotFound);
        }
        let lowered = to_lower(tag.get_tag().as_str());
        match self.jogadores.tag.get_mut(&lowered) {
            Some(ids) => {
                ids.push(id);
            },
            None => {
                let mut fresh: Vec<u32> = Vec::new();
                fresh.push(id);
                proof {
                    assert(fresh@ =~= Seq::<u32>::empty().push(id));
                }
                let _ = self.jogadores.tag.insert(&lowered, fresh);
            },
        }
        match self.jogadores.ht.get_mut(&id) {
            Some(player) => {
                player.add_tag(tag);
            },
            None => {
                proof {
                    assert(false);
                }
            },
        }
        proof {
            let a = *old(self);
            let b = *self;
            assert(final(self).wf()) by {
                assert forall|id2: u32|
                    #[trigger] b.jogadores.ht.spec_get(id2) is Some implies b.jogadores.ht.spec_get(
                    id2,
                ).unwrap().wf() && b.jogadores.ht.spec_get(id2).unwrap().spec_id() == id2 by {
                    if id2 != id {
                        assert(b.jogadores.ht.spec_get(id2@) == a.jogadores.ht.spec_get(id2@));
                    }
                }
                assert forall|t: Seq<char>, j: int|
                    b.jogadores.tag.spec_get(t) is Some && 0 <= j < b.jogadores.tag.spec_get(
                        t,
                    ).unwrap()@.len() implies b.jogadores.ht.contains(
                    #[trigger] b.jogadores.tag.spec_get(t).unwrap()@[j],
                ) by {
                    if t == lower_of(tag.spec_tag()) {
                        let oldl = if a.has_tag(t) {
                            a.tag_ids(t)
                        } else {
                            Seq::<u32>::empty()
                        };
                        if j < oldl.len() {
                            assert(a.jogadores.ht.contains(oldl[j]));
                        } else {
                            assert(b.jogadores.tag.spec_get(t).unwrap()@[j] == id);
                        }
                    } else {
                        assert(a.jogadores.tag.spec_get(t) == b.jogadores.tag.spec_get(t));
                        assert(a.jogadores.ht.contains(b.jogadores.tag.spec_get(t).unwrap()@[j]));
                    }
                }
                assert forall|w: Seq<char>, j: int|
                    b.jogadores.full_trie.has_list(w) && 0 <= j < b.jogadores.full_trie.list_at(
                        w,
                    ).len() implies b.jogadores.ht.contains(
                    #[trigger] b.jogadores.full_trie.list_at(w)[j],
                ) by {
                    assert(a.jogadores.ht.contains(b.jogadores.full_trie.list_at(w)[j]));
                }
                assert forall|p: Seq<char>, j: int|
                    b.jogadores.pos_ht.spec_get(p) is Some && 0 <= j
                        < b.jogadores.pos_ht.spec_get(p).unwrap().spec_entries().len() implies b.jogadores.ht.contains(
                    (#[trigger] b.jogadores.pos_ht.spec_get(p).unwrap().spec_entries()[j]).1,
                ) by {
                    assert(a.jogadores.ht.contains(
                        b.jogadores.pos_ht.spec_get(p).unwrap().spec_entries()[j].1,
                    ));
                }
            }
        }
        Ok(())
    }

    /// Whether some record in the list carries this player id.
    pub open spec fn id_represented(r: Seq<JogadorComRating>, id: u32) -> bool {
        exists|i: int| 0 <= i < r.len() && (#[trigger] r[i]).spec_id() == id
    }

    /// Whether this player stands in some stored name list that the
    /// (normalised) prefix begins.
    pub open spec fn name_matches(self, pfx: Seq<char>, id: u32) -> bool {
        exists|w: Seq<char>, j: int|
            crate::structures::tst::is_prefix_of(pfx, w) && self.has_name(w) && 0 <= j
                < self.name_ids(w).len() && #[trigger] self.name_ids(w)[j] == id
    }

    /// Every player whose stored name the normalised search text begins,
    /// in the exact flattened order of the name trie's prefix search:
    /// each returned record belongs to a matching name list, and every
    /// id of every matching list is represented.
    pub fn search_jogador(&self, name: String) -> (r: Vec<JogadorComRating>)
        requires
            self.wf(),
        ensures
            r@.len() == self.search_ids(norm_of(name@)).len(),
            forall|i: int|
                0 <= i < r@.len() ==> (#[trigger] r@[i]).spec_id() == self.search_ids(
                    norm_of(name@),
                )[i],
            forall|i: int|
                0 <= i < r@.len() ==> self.name_matches(
                    norm_of(name@),
                    (#[trigger] r@[i]).spec_id(),
                ) && self.has_player(r@[i].spec_id()) && player_like(
                    r@[i],
                    self.player_at(r@[i].spec_id()),
                ),
            forall|w: Seq<char>, j: int|
                #![trigger self.name_ids(w)[j]]
                self.has_name(w) && crate::structures::tst::is_prefix_of(norm_of(name@), w) && 0
                    <= j < self.name_ids(w).len() ==> Self::id_represented(
                    r@,
                    self.name_ids(w)[j],
                ),
    {
        let ids = self.jogadores.full_trie.find(name);
        proof {
            assert(ids@ == self.search_ids(norm_of(name@)));
        }
        let mut r: Vec<JogadorComRating> = Vec::new();
        let mut i: usize = 0;
        while i < ids.len()
            invariant
                i <= ids@.len(),
                self.wf(),
                forall|k: int|
                    0 <= k < ids@.len() ==> crate::structures::multi_tst::from_matching_list(
                        self.jogadores.full_trie,
                        norm_of(name@),
                        #[trigger] ids@[k],
                    ),
                r@.len() == i,
                forall|k: int| 0 <= k < i ==> (#[trigger] r@[k]).spec_id() == ids@[k],
                forall|k: int|
                    0 <= k < i ==> self.has_player(ids@[k]) && player_like(
                        #[trigger] r@[k],
                        self.player_at(ids@[k]),
                    ),
            decreases ids@.len() - i,
        {
            proof {
                assert(crate::structures::multi_tst::from_matching_list(
                    self.jogadores.full_trie,
                    norm_of(name@),
                    ids@[i as int],
                ));
                let (w, j): (Seq<char>, int) = choose|w: Seq<char>, j: int|
                    crate::structures::tst::is_prefix_of(norm_of(name@), w)
                        && self.jogadores.full_trie.has_list(w) && 0 <= j
                        < self.jogadores.full_trie.list_at(w).len()
                        && #[trigger] self.jogadores.full_trie.list_at(w)[j] == ids@[i as int];
                assert(self.jogadores.ht.contains(self.jogadores.full_trie.list_at(w)[j]@));
                assert(self.jogadores.ht.contains(ids@[i as int]@));
            }
            match self.jogadores.ht.get(&ids[i]) {
                Some(p) => {
                    proof {
                        assert(cloned::<JogadorComRating>(self.player_at(ids@[i as int]), p));
                    }
                    r.push(p);
                },
                None => {
                    proof {
                        assert(false);
                    }
                },
            }
            i = i + 1;
        }
        proof {
            assert forall|i2: int|
                0 <= i2 < r@.len() implies self.name_matches(
                norm_of(name@),
                (#[trigger] r@[i2]).spec_id(),
            ) && self.has_player(r@[i2].spec_id()) && player_like(
                r@[i2],
                self.player_at(r@[i2].spec_id()),
            ) by {
                assert(crate::structures::multi_tst::from_matching_list(
                    self.jogadores.full_trie,
                    norm_of(name@),
                    ids@[i2],
                ));
                let (w, j): (Seq<char>, int) = choose|w: Seq<char>, j: int|
                    crate::structures::tst::is_prefix_of(norm_of(name@), w)
                        && self.jogadores.full_trie.has_list(w) && 0 <= j
                        < self.jogadores.full_trie.list_at(w).len()
                        && #[trigger] self.jogadores.full_trie.list_at(w)[j] == ids@[i2];
                assert(self.name_ids(w)[j] == r@[i2].spec_id());
            }
            assert forall|w: Seq<char>, j: int|
                #![trigger self.name_ids(w)[j]]
                self.has_name(w) && crate::structures::tst::is_prefix_of(norm_of(name@), w) && 0
                    <= j < self.name_ids(w).len() implies Self::id_represented(
                r@,
                self.name_ids(w)[j],
            ) by {
                assert(ids@.contains(self.name_ids(w)[j]));
                let k = choose|k: int| 0 <= k < ids@.len() && ids@[k] == self.name_ids(w)[j];
                assert(r@[k].spec_id() == self.name_ids(w)[j]);
            }
        }
        r
    }

    /// One-shot post-load step: builds the per-position ranking trees.
    /// For every stored entry whose rating count exceeds the popularity
    /// threshold, its clamped mean rating and id enter the tree of each
    /// occurrence of each of its position codes; a position seen only on
    /// unpopular players still gets an empty tree. Must run after
    /// ingestion and before any top-by-position query.
    #[verifier::rlimit(100)]
    #[verifier::spinoff_prover]
    pub fn finish_init(&mut self)
        requires
            old(self).wf(),
        ensures
            final(self).wf(),
            forall|id: u32|
                (#[trigger] final(self).has_player(id)) == old(self).has_player(id) && (old(
                    self,
                ).has_player(id) ==> final(self).player_at(id) == old(self).player_at(id)),
            users_same(*old(self), *final(self)),
            names_same(*old(self), *final(self)),
            tags_same(*old(self), *final(self)),
            forall|p: Seq<char>|
                (#[trigger] final(self).has_rank(p)) <==> (old(self).has_rank(p)
                    || position_listed(old(self).stored_records(), p)),
            forall|p: Seq<char>|
                #[trigger] final(self).has_rank(p) ==> final(self).rank_at(
                    p,
                ).spec_entries().to_multiset() == prior_rank(*old(self), p).add(
                    rank_contrib(old(self).stored_records(), p),
                ),
    {
        let ghost a = *old(self);
        let pairs = self.jogadores.ht.get_pairs();
        let ghost entries0 = a.jogadores.ht.entries();
        proof {
            assert(entries0 == a.stored_records());
        }
        let mut i: usize = 0;
        while i < pairs.len()
            invariant
                i <= pairs@.len(),
                self.jogadores.ht == a.jogadores.ht,
                self.jogadores.tag == a.jogadores.tag,
                self.jogadores.full_trie == a.jogadores.full_trie,
                self.users.ht == a.users.ht,
                a.wf(),
                self.jogadores.pos_ht.wf(),
                entries0 == a.jogadores.ht.entries(),
                entries0 == a.stored_records(),
                pairs@.len() == entries0.len(),
                forall|k: int|
                    0 <= k < pairs@.len() ==> *(#[trigger] pairs@[k]).0 == entries0[k].0
                        && *pairs@[k].1 == entries0[k].1,
                forall|p: Seq<char>|
                    #[trigger] self.jogadores.pos_ht.spec_get(p) is Some
                        ==> self.jogadores.pos_ht.spec_get(p).unwrap().wf(),
                forall|p: Seq<char>, j: int|
                    self.jogadores.pos_ht.spec_get(p) is Some && 0 <= j
                        < self.jogadores.pos_ht.spec_get(p).unwrap().spec_entries().len()
                        ==> a.jogadores.ht.contains(
                        (#[trigger] self.jogadores.pos_ht.spec_get(p).unwrap().spec_entries()[j]).1,
                    ),
                forall|p: Seq<char>|
                    (#[trigger] self.jogadores.pos_ht.spec_get(p) is Some) <==> (a.has_rank(p)
                        || pos_seen_upto(entries0, i as int, p)),
                forall|p: Seq<char>|
                    #[trigger] self.jogadores.pos_ht.spec_get(p) is Some
                        ==> self.jogadores.pos_ht.spec_get(p).unwrap().spec_entries().to_multiset()
                        == prior_rank(a, p).add(contrib_upto(entries0, i as int, p)),
            decreases pairs.len() - i,
        {
            let id: u32 = *pairs[i].0;
            let record = pairs[i].1;
            let ghost e = entries0[i as int];
            proof {
                a.jogadores.ht.lemma_entries_contained(i as int);
                assert(a.jogadores.ht.contains(id@));
                assert(*record == e.1);
                assert(id == e.0);
            }
            let count = record.get_rating_count();
            let mean = record.get_rating();
            let key = if mean > 0x7FFF_FFFF_FFFF_FFFF {
                i64::MAX
            } else {
                mean as i64
            };
            proof {
                assert(key == rating_key_of(e.1));
            }
            let positions = record.get_pos();
            let mut k: usize = 0;
            while k < positions.player_positions.len()
                invariant
                    self.jogadores.ht == a.jogadores.ht,
                    self.jogadores.tag == a.jogadores.tag,
                    self.jogadores.full_trie == a.jogadores.full_trie,
                    self.users.ht == a.users.ht,
                    a.wf(),
                    self.jogadores.pos_ht.wf(),
                    entries0 == a.stored_records(),
                    0 <= i < entries0.len(),
                    e == entries0[i as int],
                    id == e.0,
                    count == e.1.spec_rating_count(),
                    key == rating_key_of(e.1),
                    position_views(*positions) == e.1.spec_positions(),
                    positions.player_positions@.len() == e.1.spec_positions().len(),
                    k <= e.1.spec_positions().len(),
                    forall|x: int|
                        0 <= x < e.1.spec_positions().len()
                            ==> (#[trigger] positions.player_positions@[x])@
                            == e.1.spec_positions()[x],
                    a.jogadores.ht.contains(id@),
                    forall|p: Seq<char>|
                        #[trigger] self.jogadores.pos_ht.spec_get(p) is Some
                            ==> self.jogadores.pos_ht.spec_get(p).unwrap().wf(),
                    forall|p: Seq<char>, j: int|
                        self.jogadores.pos_ht.spec_get(p) is Some && 0 <= j
                            < self.jogadores.pos_ht.spec_get(p).unwrap().spec_entries().len()
                            ==> a.jogadores.ht.contains(
                            (
                            #[trigger] self.jogadores.pos_ht.spec_get(
                                p,
                            ).unwrap().spec_entries()[j]).1,
                        ),
                    forall|p: Seq<char>|
                        (#[trigger] self.jogadores.pos_ht.spec_get(p) is Some) <==> (a.has_rank(p)
                            || pos_seen_upto(entries0, i as int, p) || in_first(
                            e.1.spec_positions(),
                            k as int,
                            p,
                        )),
                    forall|p: Seq<char>|
                        #[trigger] self.jogadores.pos_ht.spec_get(p) is Some
                            ==> self.jogadores.pos_ht.spec_get(
                            p,
                        ).unwrap().spec_entries().to_multiset() == prior_rank(a, p).add(
                            contrib_upto(entries0, i as int, p),
                        ).add(entry_contrib(e, p, k as int)),
                decreases positions.player_positions.len() - k,
            {
                let pos = &positions.player_positions[k];
                let ghost pv = pos@;
                let ghost before = *self;
                proof {
                    assert(pv == e.1.spec_positions()[k as int]);
                }
                if self.jogadores.pos_ht.contains_key(pos) {
                    if count > POPULARITY_THRESHOLD {
                        match self.jogadores.pos_ht.get_mut(pos) {
                            Some(tree) => {
                                tree.insert(key, id);
                            },
                            None => {
                                proof {
                                    assert(false);
                                }
                            },
                        }
                    }
                    proof {
                        assert forall|p: Seq<char>|
                            (#[trigger] self.jogadores.pos_ht.spec_get(p) is Some) <==> (
                        a.has_rank(p) || pos_seen_upto(entries0, i as int, p) || in_first(
                            e.1.spec_positions(),
                            k + 1,
                            p,
                        )) by {
                            if p != pv {
                                assert(self.jogadores.pos_ht.spec_get(p)
                                    == before.jogadores.pos_ht.spec_get(p));
                                assert(in_first(e.1.spec_positions(), k + 1, p) == in_first(
                                    e.1.spec_positions(),
                                    k as int,
                                    p,
                                )) by {
                                    if in_first(e.1.spec_positions(), k + 1, p) {
                                        let x = choose|x: int|
                                            0 <= x < k + 1 && x < e.1.spec_positions().len()
                                                && #[trigger] e.1.spec_positions()[x] == p;
                                        assert(x < k);
                                        assert(in_first(e.1.spec_positions(), k as int, p));
                                    }
                                }
                            } else {
                                assert(in_first(e.1.spec_positions(), k + 1, pv));
                            }
                        }
                        assert forall|p: Seq<char>|
                            #[trigger] self.jogadores.pos_ht.spec_get(p) is Some implies self.jogadores.pos_ht.spec_get(
                            p,
                        ).unwrap().spec_entries().to_multiset() == prior_rank(a, p).add(
                            contrib_upto(entries0, i as int, p),
                        ).add(entry_contrib(e, p, k + 1)) by {
                            if p != pv {
                                assert(self.jogadores.pos_ht.spec_get(p)
                                    == before.jogadores.pos_ht.spec_get(p));
                                assert(entry_contrib(e, p, k + 1) == entry_contrib(
                                    e,
                                    p,
                                    k as int,
                                ));
                            } else {
                                if count > POPULARITY_THRESHOLD {
                                    let oldt = before.jogadores.pos_ht.spec_get(pv).unwrap();
                                    let newt = self.jogadores.pos_ht.spec_get(pv).unwrap();
                                    assert(newt.spec_entries().to_multiset()
                                        == oldt.spec_entries().to_multiset().insert((key, id)));
                                    assert(entry_contrib(e, pv, k + 1) == entry_contrib(
                                        e,
                                        pv,
                                        k as int,
                                    ).insert((rating_key_of(e.1), e.0)));
                                } else {
                                    assert(entry_contrib(e, pv, k + 1) == entry_contrib(
                                        e,
                                        pv,
                                        k as int,
                                    ));
                                }
                            }
                        }
                        assert forall|p: Seq<char>, j: int|
                            self.jogadores.pos_ht.spec_get(p) is Some && 0 <= j
                                < self.jogadores.pos_ht.spec_get(p).unwrap().spec_entries().len() implies a.jogadores.ht.contains(
                            (
                            #[trigger] self.jogadores.pos_ht.spec_get(
                                p,
                            ).unwrap().spec_entries()[j]).1,
                        ) by {
                            if p == pv && count > POPULARITY_THRESHOLD {
                                let oldt = before.jogadores.pos_ht.spec_get(p).unwrap();
                                let newt = self.jogadores.pos_ht.spec_get(p).unwrap();
                                let x = newt.spec_entries()[j];
                                if x == (key, id) {
                                } else {
                                    broadcast use vstd::seq_lib::group_to_multiset_ensures;

                                    assert(oldt.spec_entries().to_multiset().contains(x) || x
                                        == (key, id));
                                    assert(oldt.spec_entries().contains(x));
                                    let y = choose|y: int|
                                        0 <= y < oldt.spec_entries().len()
                                            && oldt.spec_entries()[y] == x;
                                    assert(a.jogadores.ht.contains(oldt.spec_entries()[y].1));
                                }
                            } else {
                                assert(self.jogadores.pos_ht.spec_get(p)
                                    == before.jogadores.pos_ht.spec_get(p));
                                assert(a.jogadores.ht.contains(
                                    before.jogadores.pos_ht.spec_get(
                                        p,
                                    ).unwrap().spec_entries()[j].1,
                                ));
                            }
                        }
                    }
                } else {
                    let mut btree: BTree<u32> = BTree::new();
                    if count > POPULARITY_THRESHOLD {
                        btree.insert(key, id);
                    }
                    let ghost newt = btree;
                    let _ = self.jogadores.pos_ht.insert(pos, btree);
                    proof {
                        broadcast use vstd::seq_lib::group_to_multiset_ensures;

                        assert(!a.has_rank(pv));
                        assert(!pos_seen_upto(entries0, i as int, pv));
                        assert(!in_first(e.1.spec_positions(), k as int, pv));
                        lemma_contrib_upto_empty(entries0, i as int, pv);
                        lemma_entry_contrib_empty(e, pv, k as int);
                        assert(prior_rank(a, pv) == Multiset::<(i64, u32)>::empty());
                        assert forall|p: Seq<char>|
                            (#[trigger] self.jogadores.pos_ht.spec_get(p) is Some) <==> (
                        a.has_rank(p) || pos_seen_upto(entries0, i as int, p) || in_first(
                            e.1.spec_positions(),
                            k + 1,
                            p,
                        )) by {
                            if p != pv {
                                assert(self.jogadores.pos_ht.spec_get(p)
                                    == before.jogadores.pos_ht.spec_get(p));
                                assert(in_first(e.1.spec_positions(), k + 1, p) == in_first(
                                    e.1.spec_positions(),
                                    k as int,
                                    p,
                                )) by {
                                    if in_first(e.1.spec_positions(), k + 1, p) {
                                        let x = choose|x: int|
                                            0 <= x < k + 1 && x < e.1.spec_positions().len()
                                                && #[trigger] e.1.spec_positions()[x] == p;
                                        assert(x < k);
                                        assert(in_first(e.1.spec_positions(), k as int, p));
                                    }
                                }
                            } else {
                                assert(self.jogadores.pos_ht.spec_get(pv) == Some(newt));
                                assert(in_first(e.1.spec_positions(), k + 1, pv));
                            }
                        }
                        assert forall|p: Seq<char>|
                            #[trigger] self.jogadores.pos_ht.spec_get(p) is Some implies self.jogadores.pos_ht.spec_get(
                            p,
                        ).unwrap().spec_entries().to_multiset() == prior_rank(a, p).add(
                            contrib_upto(entries0, i as int, p),
                        ).add(entry_contrib(e, p, k + 1)) by {
                            if p != pv {
                                assert(self.jogadores.pos_ht.spec_get(p)
                                    == before.jogadores.pos_ht.spec_get(p));
                                assert(entry_contrib(e, p, k + 1) == entry_contrib(
                                    e,
                                    p,
                                    k as int,
                                ));
                            } else {
                                assert(self.jogadores.pos_ht.spec_get(pv) == Some(newt));
                                if count > POPULARITY_THRESHOLD {
                                    assert(newt.spec_entries().to_multiset() == Seq::<
                                        (i64, u32),
                                    >::empty().to_multiset().insert((key, id)));
                                    assert(Seq::<(i64, u32)>::empty().to_multiset()
                                        =~= Multiset::<(i64, u32)>::empty());
                                    assert(entry_contrib(e, pv, k + 1) == entry_contrib(
                                        e,
                                        pv,
                                        k as int,
                                    ).insert((rating_key_of(e.1), e.0)));
                                    assert(prior_rank(a, pv).add(
                                        contrib_upto(entries0, i as int, pv),
                                    ).add(entry_contrib(e, pv, k + 1)) =~= Multiset::<
                                        (i64, u32),
                                    >::empty().insert((key, id)));
                                } else {
                                    assert(newt.spec_entries().to_multiset() =~= Multiset::<
                                        (i64, u32),
                                    >::empty());
                                    assert(entry_contrib(e, pv, k + 1) == entry_contrib(
                                        e,
                                        pv,
                                        k as int,
                                    ));
                                    assert(prior_rank(a, pv).add(
                                        contrib_upto(entries0, i as int, pv),
                                    ).add(entry_contrib(e, pv, k + 1)) =~= Multiset::<
                                        (i64, u32),
                                    >::empty());
                                }
                            }
                        }
                        assert forall|p: Seq<char>, j: int|
                            self.jogadores.pos_ht.spec_get(p) is Some && 0 <= j
                                < self.jogadores.pos_ht.spec_get(p).unwrap().spec_entries().len() implies a.jogadores.ht.contains(
                            (
                            #[trigger] self.jogadores.pos_ht.spec_get(
                                p,
                            ).unwrap().spec_entries()[j]).1,
                        ) by {
                            if p == pv {
                                let t = self.jogadores.pos_ht.spec_get(p).unwrap();
                                assert(t == newt);
                                let x = t.spec_entries()[j];
                                if newt.spec_entries().len() > 0 {
                                    assert(newt.spec_entries().to_multiset().contains(x));
                                    assert(x == (key, id)) by {
                                        if x != (key, id) {
                                            assert(Seq::<(i64, u32)>::empty().to_multiset().count(
                                                x,
                                            ) > 0);
                                            assert(Seq::<(i64, u32)>::empty().contains(x));
                                        }
                                    }
                                }
                            } else {
                                assert(self.jogadores.pos_ht.spec_get(p)
                                    == before.jogadores.pos_ht.spec_get(p));
                                assert(a.jogadores.ht.contains(
                                    before.jogadores.pos_ht.spec_get(
                                        p,
                                    ).unwrap().spec_entries()[j].1,
                                ));
                            }
                        }
                    }
                }
                k = k + 1;
            }
            proof {
                assert forall|p: Seq<char>|
                    (#[trigger] self.jogadores.pos_ht.spec_get(p) is Some) <==> (a.has_rank(p)
                        || pos_seen_upto(entries0, i + 1, p)) by {
                    assert(pos_seen_upto(entries0, i + 1, p) == (pos_seen_upto(
                        entries0,
                        i as int,
                        p,
                    ) || in_first(e.1.spec_positions(), e.1.spec_positions().len() as int, p)))
                        by {
                        if pos_seen_upto(entries0, i + 1, p) {
                            let (e2, x): (int, int) = choose|e2: int, x: int|
                                0 <= e2 < i + 1 && 0 <= x < entries0[e2].1.spec_positions().len()
                                    && #[trigger] entries0[e2].1.spec_positions()[x] == p;
                            if e2 < i {
                                assert(pos_seen_upto(entries0, i as int, p));
                            } else {
                                assert(in_first(
                                    e.1.spec_positions(),
                                    e.1.spec_positions().len() as int,
                                    p,
                                ));
                            }
                        }
                        if pos_seen_upto(entries0, i as int, p) {
                            let (e2, x): (int, int) = choose|e2: int, x: int|
                                0 <= e2 < i && 0 <= x < entries0[e2].1.spec_positions().len()
                                    && #[trigger] entries0[e2].1.spec_positions()[x] == p;
                            assert(pos_seen_upto(entries0, i + 1, p));
                        }
                        if in_first(e.1.spec_positions(), e.1.spec_positions().len() as int, p) {
                            let x = choose|x: int|
                                0 <= x < e.1.spec_positions().len()
                                    && #[trigger] e.1.spec_positions()[x] == p;
                            assert(entries0[i as int].1.spec_positions()[x] == p);
                            assert(pos_seen_upto(entries0, i + 1, p));
                        }
                    }
                }
                assert forall|p: Seq<char>|
                    #[trigger] self.jogadores.pos_ht.spec_get(p) is Some implies self.jogadores.pos_ht.spec_get(
                    p,
                ).unwrap().spec_entries().to_multiset() == prior_rank(a, p).add(
                    contrib_upto(entries0, i + 1, p),
                ) by {
                    assert(contrib_upto(entries0, i + 1, p) == contrib_upto(
                        entries0,
                        i as int,
                        p,
                    ).add(entry_contrib(e, p, e.1.spec_positions().len() as int)));
                    assert(prior_rank(a, p).add(contrib_upto(entries0, i + 1, p)) =~= prior_rank(
                        a,
                        p,
                    ).add(contrib_upto(entries0, i as int, p)).add(
                        entry_contrib(e, p, e.1.spec_positions().len() as int),
                    ));
                }
            }
            i = i + 1;
        }
        proof {
            assert forall|p: Seq<char>|
                (#[trigger] self.has_rank(p)) <==> (a.has_rank(p) || position_listed(
                a.stored_records(),
                p,
            )) by {}
        }
    }

}

/// The id lists of a prefix-search result, as sequences.
pub open spec fn views_of(lists: Seq<Vec<u32>>) -> Seq<Seq<u32>> {
    Seq::new(lists.len(), |i: int| lists[i]@)
}

/// The elements of `cur` that also occur in `prev`, keeping `cur`'s
/// order.
pub open spec fn ids_filter(cur: Seq<u32>, prev: Seq<u32>) -> Seq<u32>
    decreases cur.len(),
{
    if cur.len() == 0 {
        Seq::empty()
    } else {
        let rest = ids_filter(cur.drop_first(), prev);
        if prev.contains(cur.first()) {
            seq![cur.first()] + rest
        } else {
            rest
        }
    }
}

/// Intersects the lists left to right, keeping each step's order.
pub open spec fn intersect_lists(lists: Seq<Seq<u32>>, k: int, acc: Seq<u32>) -> Seq<u32>
    decreases lists.len() - k,
{
    if k < 0 || k >= lists.len() {
        acc
    } else {
        intersect_lists(lists, k + 1, ids_filter(lists[k], acc))
    }
}

/// Keeps each id's first appearance.
pub open spec fn dedup_from(acc: Seq<u32>, s: Seq<u32>) -> Seq<u32>
    decreases s.len(),
{
    if s.len() == 0 {
        acc
    } else {
        dedup_from(
            if acc.contains(s.first()) {
                acc
            } else {
                acc.push(s.first())
            },
            s.drop_first(),
        )
    }
}

/// What a tag query returns before player lookup: the progressive
/// intersection of the queried id lists, deduplicated, first appearances
/// kept. No lists yield no ids.
pub open spec fn spec_intersection(lists: Seq<Seq<u32>>) -> Seq<u32> {
    if lists.len() == 0 {
        Seq::empty()
    } else {
        dedup_from(Seq::empty(), intersect_lists(lists, 1, lists[0]))
    }
}

/// An exact copy of an id list.
fn copy_ids(v: &Vec<u32>) -> (r: Vec<u32>)
    ensures
        r@ == v@,
{
    let mut r: Vec<u32> = Vec::new();
    let mut i: usize = 0;
    while i < v.len()
        invariant
            i <= v@.len(),
            r@ =~= v@.take(i as int),
        decreases v@.len() - i,
    {
        r.push(v[i]);
        proof {
            assert(r@ =~= v@.take(i + 1));
        }
        i = i + 1;
    }
    proof {
        assert(r@ =~= v@);
    }
    r
}

/// Every id the filter keeps comes from `cur`.
proof fn lemma_filter_members(cur: Seq<u32>, prev: Seq<u32>)
    ensures
        forall|x: u32| #[trigger] ids_filter(cur, prev).contains(x) ==> cur.contains(x),
    decreases cur.len(),
{
    if cur.len() > 0 {
        lemma_filter_members(cur.drop_first(), prev);
        assert forall|x: u32| #[trigger] ids_filter(cur, prev).contains(x) implies cur.contains(
            x,
        ) by {
            let f = ids_filter(cur, prev);
            let rest = ids_filter(cur.drop_first(), prev);
            let j = choose|j: int| 0 <= j < f.len() && f[j] == x;
            if prev.contains(cur.first()) {
                if j == 0 {
                    assert(cur[0] == x);
                } else {
                    assert(rest[j - 1] == x);
                    assert(rest.contains(x));
                    assert(cur.drop_first().contains(x));
                    let j2 = choose|j2: int|
                        0 <= j2 < cur.drop_first().len() && cur.drop_first()[j2] == x;
                    assert(cur[j2 + 1] == x);
                }
            } else {
                assert(rest.contains(x));
                assert(cur.drop_first().contains(x));
                let j2 = choose|j2: int|
                    0 <= j2 < cur.drop_first().len() && cur.drop_first()[j2] == x;
                assert(cur[j2 + 1] == x);
            }
        }
    }
}

/// Every id the intersection keeps comes from `acc` or a later list.
proof fn lemma_intersect_members(lists: Seq<Seq<u32>>, k: int, acc: Seq<u32>)
    ensures
        forall|x: u32|
            #[trigger] intersect_lists(lists, k, acc).contains(x) ==> acc.contains(x) || exists|
                t: int,
                j: int,
            | k <= t < lists.len() && 0 <= j < lists[t].len() && #[trigger] lists[t][j] == x,
    decreases lists.len() - k,
{
    if 0 <= k < lists.len() {
        lemma_intersect_members(lists, k + 1, ids_filter(lists[k], acc));
        lemma_filter_members(lists[k], acc);
        assert forall|x: u32|
            #[trigger] intersect_lists(lists, k, acc).contains(x) implies acc.contains(x)
            || exists|t: int, j: int|
            k <= t < lists.len() && 0 <= j < lists[t].len() && #[trigger] lists[t][j] == x by {
            if !acc.contains(x) {
                if ids_filter(lists[k], acc).contains(x) {
                    assert(lists[k].contains(x));
                    let j = choose|j: int| 0 <= j < lists[k].len() && lists[k][j] == x;
                    assert(lists[k][j] == x);
                } else {
                    assert(intersect_lists(lists, k + 1, ids_filter(lists[k], acc)).contains(x));
                    let (t, j): (int, int) = choose|t: int, j: int|
                        k + 1 <= t < lists.len() && 0 <= j < lists[t].len() && #[trigger] lists[t][j]
                            == x;
                    assert(lists[t][j] == x);
                }
            }
        }
    }
}

/// Every id the dedup keeps comes from `acc` or from `s`.
proof fn lemma_dedup_members(acc: Seq<u32>, s: Seq<u32>)
    ensures
        forall|x: u32|
            #[trigger] dedup_from(acc, s).contains(x) ==> acc.contains(x) || s.contains(x),
    decreases s.len(),
{
    if s.len() > 0 {
        let acc2 = if acc.contains(s.first()) {
            acc
        } else {
            acc.push(s.first())
        };
        lemma_dedup_members(acc2, s.drop_first());
        assert forall|x: u32| #[trigger] dedup_from(acc, s).contains(x) implies acc.contains(x)
            || s.contains(x) by {
            assert(dedup_from(acc2, s.drop_first()).contains(x));
            if acc2.contains(x) {
                if !acc.contains(x) {
                    let j = choose|j: int| 0 <= j < acc2.len() && acc2[j] == x;
                    assert(acc2[acc2.len() - 1] == s.first());
                    if j < acc.len() {
                        assert(acc[j] == x);
                    } else {
                        assert(s[0] == x);
                    }
                }
            } else if s.drop_first().contains(x) {
                let j = choose|j: int| 0 <= j < s.drop_first().len() && s.drop_first()[j] == x;
                assert(s[j + 1] == x);
            }
        }
    }
}

/// Every id a tag intersection returns occurs in one of the queried
/// lists.
proof fn lemma_intersection_members(lists: Seq<Seq<u32>>)
    ensures
        forall|k: int|
            0 <= k < spec_intersection(lists).len() ==> exists|t: int, j: int|
                0 <= t < lists.len() && 0 <= j < lists[t].len() && (
                #[trigger] spec_intersection(lists)[k]) == #[trigger] lists[t][j],
{
    if lists.len() > 0 {
        lemma_dedup_members(Seq::empty(), intersect_lists(lists, 1, lists[0]));
        lemma_intersect_members(lists, 1, lists[0]);
        assert forall|k: int|
            0 <= k < spec_intersection(lists).len() implies exists|t: int, j: int|
            0 <= t < lists.len() && 0 <= j < lists[t].len() && (
        #[trigger] spec_intersection(lists)[k]) == #[trigger] lists[t][j] by {
            let x = spec_intersection(lists)[k];
            assert(spec_intersection(lists).contains(x));
            assert(dedup_from(Seq::empty(), intersect_lists(lists, 1, lists[0])).contains(x));
            if intersect_lists(lists, 1, lists[0]).contains(x) {
                if lists[0].contains(x) {
                    let j = choose|j: int| 0 <= j < lists[0].len() && lists[0][j] == x;
                    assert(lists[0][j] == x);
                }
            }
        }
    }
}

/// Flattens the query's tag lists, intersects and deduplicates them,
/// mirroring the specification exactly.
fn intersect_and_dedup(lists: &Vec<Vec<u32>>) -> (r: Vec<u32>)
    ensures
        r@ == spec_intersection(views_of(lists@)),
{
    let ghost vs = views_of(lists@);
    if lists.len() == 0 {
        let r: Vec<u32> = Vec::new();
        proof {
            assert(r@ =~= spec_intersection(vs));
        }
        return r;
    }
    let mut acc = copy_ids(&lists[0]);
    let mut k: usize = 1;
    while k < lists.len()
        invariant
            1 <= k <= lists@.len(),
            vs == views_of(lists@),
            vs.len() == lists@.len(),
            intersect_lists(vs, k as int, acc@) == intersect_lists(vs, 1, vs[0]),
        decreases lists@.len() - k,
    {
        let cur = &lists[k];
        let mut filtered: Vec<u32> = Vec::new();
        let mut j: usize = 0;
        while j < cur.len()
            invariant
                j <= cur@.len(),
                0 <= k < lists@.len(),
                cur@ == lists@[k as int]@,
                filtered@ == ids_filter(cur@.take(j as int), acc@),
            decreases cur@.len() - j,
        {
            let x = cur[j];
            let present = contains_id(&acc, x);
            proof {
                lemma_filter_snoc(cur@.take(j as int), acc@, cur@[j as int]);
                assert(cur@.take(j + 1) =~= cur@.take(j as int).push(cur@[j as int]));
            }
            if present {
                filtered.push(x);
                proof {
                    assert(filtered@ =~= ids_filter(cur@.take(j as int), acc@).push(
                        cur@[j as int],
                    ));
                }
            }
            j = j + 1;
        }
        proof {
            assert(cur@.take(cur@.len() as int) =~= cur@);
            assert(filtered@ == ids_filter(vs[k as int], acc@));
        }
        acc = filtered;
        k = k + 1;
    }
    proof {
        assert(intersect_lists(vs, k as int, acc@) == acc@);
    }
    let mut out: Vec<u32> = Vec::new();
    let mut i: usize = 0;
    proof {
        assert(acc@.skip(0) =~= acc@);
    }
    while i < acc.len()
        invariant
            i <= acc@.len(),
            dedup_from(out@, acc@.skip(i as int)) == dedup_from(Seq::empty(), acc@),
        decreases acc@.len() - i,
    {
        let x = acc[i];
        let present = contains_id(&out, x);
        proof {
            assert(acc@.skip(i as int).first() == acc@[i as int]);
            assert(acc@.skip(i as int).drop_first() =~= acc@.skip(i + 1));
        }
        if !present {
            out.push(x);
        }
        i = i + 1;
    }
    proof {
        assert(acc@.skip(acc@.len() as int) =~= Seq::<u32>::empty());
        assert(dedup_from(out@, acc@.skip(acc@.len() as int)) == out@);
        assert(spec_intersection(vs) == dedup_from(Seq::empty(), intersect_lists(vs, 1, vs[0])));
    }
    out
}

/// Appending one element to the scanned part extends the filter by that
/// element exactly when it is present in `prev`.
proof fn lemma_filter_snoc(cur: Seq<u32>, prev: Seq<u32>, x: u32)
    ensures
        ids_filter(cur.push(x), prev) == (if prev.contains(x) {
            ids_filter(cur, prev).push(x)
        } else {
            ids_filter(cur, prev)
        }),
    decreases cur.len(),
{
    if cur.len() == 0 {
        assert(cur.push(x).first() == x);
        assert(cur.push(x).drop_first() =~= Seq::<u32>::empty());
        assert(ids_filter(cur.push(x).drop_first(), prev) =~= Seq::<u32>::empty());
        if prev.contains(x) {
            assert(ids_filter(cur.push(x), prev) =~= ids_filter(cur, prev).push(x));
        } else {
            assert(ids_filter(cur.push(x), prev) =~= ids_filter(cur, prev));
        }
    } else {
        assert(cur.push(x).first() == cur.first());
        assert(cur.push(x).drop_first() =~= cur.drop_first().push(x));
        lemma_filter_snoc(cur.drop_first(), prev, x);
        if prev.contains(x) {
            assert(ids_filter(cur.push(x), prev) =~= ids_filter(cur, prev).push(x));
        } else {
            assert(ids_filter(cur.push(x), prev) =~= ids_filter(cur, prev));
        }
    }
}

/// Whether the list holds the id.
fn contains_id(v: &Vec<u32>, x: u32) -> (b: bool)
    ensures
        b == v@.contains(x),
{
    let mut i: usize = 0;
    while i < v.len()
        invariant
            i <= v@.len(),
            forall|j: int| 0 <= j < i ==> v@[j] != x,
        decreases v@.len() - i,
    {
        if v[i] == x {
            return true;
        }
        i = i + 1;
    }
    proof {
        assert(!v@.contains(x)) by {
            if v@.contains(x) {
                let j = choose|j: int| 0 <= j < v@.len() && v@[j] == x;
            }
        }
    }
    false
}

impl DB {
    /// The id list each queried tag answers with: the ids under the
    /// lowercased tag text, or nothing for an unknown tag.
    pub open spec fn query_tag_lists(self, ts: Seq<String>) -> Seq<Seq<u32>> {
        Seq::new(
            ts.len(),
            |i: int|
                if self.has_tag(lower_of(ts[i]@)) {
                    self.tag_ids(lower_of(ts[i]@))
                } else {
                    Seq::<u32>::empty()
                },
        )
    }

    /// Evaluates one query.
    ///
    /// A name search returns the single matching player when exactly one
    /// record matches, else the whole match list. A user lookup fails
    /// with `NotFound` for an unknown id. A top-by-position query fails
    /// with `NotFound` for a position never ranked; otherwise it returns
    /// the players of the `n` greatest ranking entries in descending
    /// rating order. A tag query intersects the queried tags' id lists
    /// in order and drops repeated ids, keeping first appearances.
    #[verifier::rlimit(100)]
    #[verifier::spinoff_prover]
    pub fn run_query(&self, query: Query) -> (r: Result<QueryResult, DbError>)
        requires
            self.wf(),
        ensures
            query matches Query::User(uid) ==> ({
                &&& (r is Ok <==> self.has_user(uid))
                &&& (r is Err ==> r == Err::<QueryResult, DbError>(DbError::NotFound))
                &&& (r matches Ok(qr) ==> qr matches QueryResult::User(u) && user_like(
                    u,
                    self.user_at(uid),
                ) && u.spec_id() == uid)
            }),
            query matches Query::Player(name) ==> ({
                let ids = self.search_ids(norm_of(name@));
                &&& r is Ok
                &&& (ids.len() == 1 ==> (r matches Ok(QueryResult::Jogador(p)) && p.spec_id()
                    == ids[0]))
                &&& (ids.len() != 1 ==> (r matches Ok(QueryResult::Jogadores(ps)) && ps@.len()
                    == ids.len() && (forall|i: int|
                    0 <= i < ps@.len() ==> (#[trigger] ps@[i]).spec_id() == ids[i])))
                &&& (r matches Ok(QueryResult::Jogador(p)) ==> self.name_matches(
                    norm_of(name@),
                    p.spec_id(),
                ) && self.has_player(p.spec_id()) && player_like(p, self.player_at(p.spec_id())))
                &&& (r matches Ok(QueryResult::Jogadores(ps)) ==> (forall|i: int|
                    0 <= i < ps@.len() ==> self.name_matches(
                        norm_of(name@),
                        (#[trigger] ps@[i]).spec_id(),
                    ) && self.has_player(ps@[i].spec_id()) && player_like(
                        ps@[i],
                        self.player_at(ps@[i].spec_id()),
                    )) && (forall|w: Seq<char>, j: int|
                    #![trigger self.name_ids(w)[j]]
                    self.has_name(w) && crate::structures::tst::is_prefix_of(norm_of(name@), w)
                        && 0 <= j < self.name_ids(w).len() ==> Self::id_represented(
                        ps@,
                        self.name_ids(w)[j],
                    )))
            }),
            query matches Query::Top(n, pos) ==> ({
                &&& (r is Ok <==> self.has_rank(pos@))
                &&& (r is Err ==> r == Err::<QueryResult, DbError>(DbError::NotFound))
                &&& (r matches Ok(qr) ==> qr matches QueryResult::Jogadores(ps) && {
                    let tree = self.rank_at(pos@);
                    &&& ps@.len() == (if (n as u32) as int <= tree.spec_entries().len() {
                        (n as u32) as int
                    } else {
                        tree.spec_entries().len() as int
                    })
                    &&& (forall|i: int|
                        0 <= i < ps@.len() ==> (#[trigger] ps@[i]).spec_id()
                            == tree.spec_entries().reverse()[i].1 && self.has_player(
                            ps@[i].spec_id(),
                        ) && player_like(ps@[i], self.player_at(ps@[i].spec_id())))
                })
            }),
            query matches Query::Tags(ts) ==> ({
                &&& r is Ok
                &&& (r matches Ok(qr) ==> qr matches QueryResult::Jogadores(ps) && {
                    let ids = spec_intersection(self.query_tag_lists(ts@));
                    &&& ps@.len() == ids.len()
                    &&& (forall|i: int|
                        0 <= i < ps@.len() ==> (#[trigger] ps@[i]).spec_id() == ids[i]
                            && self.has_player(ids[i]) && player_like(
                            ps@[i],
                            self.player_at(ids[i]),
                        ))
                })
            }),
    {
        match query {
            Query::Player(name) => {
                let jogadores = self.search_jogador(name);
                if jogadores.len() == 1 {
                    let mut list = jogadores;
                    match list.pop() {
                        Some(p) => {
                            proof {
                                assert(p.spec_id() == self.search_ids(norm_of(name@))[0]);
                            }
                            Ok(QueryResult::Jogador(p))
                        },
                        None => {
                            proof {
                                assert(false);
                            }
                            Err(DbError::NotFound)
                        },
                    }
                } else {
                    Ok(QueryResult::Jogadores(jogadores))
                }
            },
            Query::User(uid) => {
                match self.get_user(uid) {
                    Some(user) => Ok(QueryResult::User(user)),
                    None => Err(DbError::NotFound),
                }
            },
            Query::Top(n, pos) => {
                match self.jogadores.pos_ht.get_ref(&pos) {
                    None => Err(DbError::NotFound),
                    Some(tree) => {
                        #[verifier::truncate]
                        let count = n as u32;
                        let ids = tree.get_greatest_n(count);
                        let ghost gtree = *tree;
                        proof {
                            assert forall|k: int|
                                0 <= k < ids@.len() implies (#[trigger] ids@[k])
                                == gtree.spec_entries().reverse()[k].1 by {
                                assert(cloned::<u32>(
                                    gtree.spec_entries().reverse()[k].1,
                                    ids@[k],
                                ));
                            }
                        }
                        let mut ps: Vec<JogadorComRating> = Vec::new();
                        let mut i: usize = 0;
                        while i < ids.len()
                            invariant
                                i <= ids@.len(),
                                self.wf(),
                                self.jogadores.pos_ht.spec_get(pos@) == Some(gtree),
                                gtree.wf(),
                                ids@.len() <= gtree.spec_entries().len(),
                                forall|k: int|
                                    0 <= k < ids@.len() ==> (#[trigger] ids@[k])
                                        == gtree.spec_entries().reverse()[k].1,
                                ps@.len() == i,
                                forall|k: int|
                                    0 <= k < i ==> (#[trigger] ps@[k]).spec_id() == ids@[k]
                                        && self.has_player(ids@[k]) && player_like(
                                        ps@[k],
                                        self.player_at(ids@[k]),
                                    ),
                            decreases ids@.len() - i,
                        {
                            proof {
                                let rev = gtree.spec_entries().reverse();
                                assert(rev[i as int] == gtree.spec_entries()[gtree.spec_entries().len()
                                    - 1 - i]);
                                assert(self.jogadores.ht.contains(
                                    gtree.spec_entries()[gtree.spec_entries().len() - 1 - i].1,
                                ));
                            }
                            match self.jogadores.ht.get(&ids[i]) {
                                Some(p) => {
                                    proof {
                                        assert(cloned::<JogadorComRating>(
                                            self.player_at(ids@[i as int]),
                                            p,
                                        ));
                                    }
                                    ps.push(p);
                                },
                                None => {
                                    proof {
                                        assert(false);
                                    }
                                },
                            }
                            i = i + 1;
                        }
                        Ok(QueryResult::Jogadores(ps))
                    },
                }
            },
            Query::Tags(tags) => {
                let ghost gts = tags@;
                let mut lists: Vec<Vec<u32>> = Vec::new();
                let mut i: usize = 0;
                while i < tags.len()
                    invariant
                        i <= tags@.len(),
                        tags@ == gts,
                        self.wf(),
                        lists@.len() == i,
                        forall|k: int|
                            0 <= k < i ==> (#[trigger] lists@[k])@ == self.query_tag_lists(
                                gts,
                            )[k],
                    decreases tags@.len() - i,
                {
                    let lowered = to_lower(tags[i].as_str());
                    match self.jogadores.tag.get_ref(&lowered) {
                        Some(v) => {
                            let copy = copy_ids(v);
                            lists.push(copy);
                        },
                        None => {
                            lists.push(Vec::new());
                        },
                    }
                    i = i + 1;
                }
                let ids = intersect_and_dedup(&lists);
                proof {
                    assert(views_of(lists@) =~= self.query_tag_lists(gts));
                    lemma_intersection_members(views_of(lists@));
                }
                let mut ps: Vec<JogadorComRating> = Vec::new();
                let mut i: usize = 0;
                while i < ids.len()
                    invariant
                        i <= ids@.len(),
                        self.wf(),
                        ids@ == spec_intersection(self.query_tag_lists(gts)),
                        forall|k: int|
                            0 <= k < ids@.len() ==> exists|t: int, j: int|
                                0 <= t < self.query_tag_lists(gts).len() && 0 <= j
                                    < self.query_tag_lists(gts)[t].len() && (#[trigger] ids@[k])
                                    == #[trigger] self.query_tag_lists(gts)[t][j],
                        ps@.len() == i,
                        forall|k: int|
                            0 <= k < i ==> (#[trigger] ps@[k]).spec_id() == ids@[k]
                                && self.has_player(ids@[k]) && player_like(
                                ps@[k],
                                self.player_at(ids@[k]),
                            ),
                    decreases ids@.len() - i,
                {
                    proof {
                        let (t, j): (int, int) = choose|t: int, j: int|
                            0 <= t < self.query_tag_lists(gts).len() && 0 <= j
                                < self.query_tag_lists(gts)[t].len() && ids@[i as int]
                                == #[trigger] self.query_tag_lists(gts)[t][j];
                        if self.has_tag(lower_of(gts[t]@)) {
                            assert(self.jogadores.ht.contains(
                                self.tag_ids(lower_of(gts[t]@))[j]@,
                            ));
                        }
                    }
                    match self.jogadores.ht.get(&ids[i]) {
                        Some(p) => {
                            proof {
                                assert(cloned::<JogadorComRating>(
                                    self.player_at(ids@[i as int]),
                                    p,
                                ));
                            }
                            ps.push(p);
                        },
                        None => {
                            proof {
                                assert(false);
                            }
                        },
                    }
                    i = i + 1;
                }
                Ok(QueryResult::Jogadores(ps))
            },
        }
    }
}

/// In a freshly built table every bucket is empty, so no key is present.
proof fn reveal_empty_table<K: crate::structures::hash_table::Hashable, V>(
    t: HashTable<K, V>,
    kv: <K as View>::V,
)
    requires
        t.wf(),
        forall|i: int| 0 <= i < t.capacity() ==> t.buckets()[i] == Seq::<(K, V)>::empty(),
    ensures
        !t.contains(kv),
{
    assert(t.buckets()[t.bucket_of(kv)].len() == 0);
}

} // verus!
