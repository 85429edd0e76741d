//! The record types of the dataset: raw player records, aggregated
//! players with ratings and tags, users with their rating history, and
//! tags. Rating scores are fixed-point integers (the caller picks the
//! scale, for example thousandths), so aggregation is exact.

use vstd::prelude::*;

use crate::text::{split_commas, split_and_trim, trim_of};

verus! {

/// A raw player record as ingested: identifier, name, and the
/// comma-separated list of position codes.
#[derive(Debug)]
pub struct Jogador {
    sofifa_id: u32,
    name: String,
    player_positions: String,
}

impl Jogador {
    pub fn new(sofifa_id: u32, name: String, player_positions: String) -> (j: Self)
        ensures
            j.spec_id() == sofifa_id,
            j.spec_name() == name@,
            j.spec_positions() == player_positions@,
    {
        Jogador { sofifa_id, name, player_positions }
    }

    pub closed spec fn spec_id(self) -> u32 {
        self.sofifa_id
    }

    pub closed spec fn spec_name(self) -> Seq<char> {
        self.name@
    }

    pub closed spec fn spec_positions(self) -> Seq<char> {
        self.player_positions@
    }

    pub fn get_id(&self) -> (r: u32)
        ensures
            r == self.spec_id(),
    {
        self.sofifa_id
    }

    pub fn get_name(&self) -> (r: &String)
        ensures
            r@ == self.spec_name(),
    {
        &self.name
    }

    pub fn get_positions(&self) -> (r: &String)
        ensures
            r@ == self.spec_positions(),
    {
        &self.player_positions
    }
}

impl Clone for Jogador {
    fn clone(&self) -> (r: Self)
        ensures
            r.spec_id() == self.spec_id(),
            r.spec_name() == self.spec_name(),
            r.spec_positions() == self.spec_positions(),
    {
        Jogador {
            sofifa_id: self.sofifa_id,
            name: self.name.clone(),
            player_positions: self.player_positions.clone(),
        }
    }
}

/// The position codes a player can play at.
#[derive(Debug)]
pub struct Positons {
    pub player_positions: Vec<String>,
}

/// The deep view of a position list: each code as its characters.
pub open spec fn position_views(p: Positons) -> Seq<Seq<char>> {
    Seq::new(p.player_positions@.len(), |i: int| p.player_positions@[i]@)
}

/// A player as held by the index: static record data plus the running
/// rating aggregate and the tag set. The rating aggregate keeps the
/// exact sum of all fixed-point scores and their count; the mean is
/// derived from them.
#[derive(Debug)]
pub struct JogadorComRating {
    id: u32,
    nome: String,
    posicoes: Positons,
    nota_sum: u64,
    avaliacoes: u32,
    tags: Vec<String>,
}

/// The tag texts of a player.
pub open spec fn tag_views(tags: Seq<String>) -> Seq<Seq<char>> {
    Seq::new(tags.len(), |i: int| tags[i]@)
}

impl JogadorComRating {
    pub closed spec fn spec_id(self) -> u32 {
        self.id
    }

    pub closed spec fn spec_name(self) -> Seq<char> {
        self.nome@
    }

    pub closed spec fn spec_positions(self) -> Seq<Seq<char>> {
        position_views(self.posicoes)
    }

    pub closed spec fn spec_rating_sum(self) -> u64 {
        self.nota_sum
    }

    pub closed spec fn spec_rating_count(self) -> u32 {
        self.avaliacoes
    }

    pub closed spec fn spec_tags(self) -> Seq<Seq<char>> {
        tag_views(self.tags@)
    }

    /// The rating sum never exceeds what its count of 32-bit scores
    /// could have contributed, so one more score cannot overflow it.
    pub closed spec fn wf(self) -> bool {
        self.nota_sum as int <= self.avaliacoes as int * (u32::MAX as int)
    }

    /// Builds the aggregate for a freshly ingested player: no ratings,
    /// no tags, and the positions parsed out of the record's
    /// comma-separated list, each trimmed.
    pub fn from(jogador: Jogador) -> (r: Self)
        ensures
            r.wf(),
            r.spec_id() == jogador.spec_id(),
            r.spec_name() == jogador.spec_name(),
            r.spec_rating_sum() == 0,
            r.spec_rating_count() == 0,
            r.spec_tags() == Seq::<Seq<char>>::empty(),
            r.spec_positions().len() == split_commas(jogador.spec_positions()).len(),
            forall|i: int|
                0 <= i < r.spec_positions().len() ==> #[trigger] r.spec_positions()[i] == trim_of(
                    split_commas(jogador.spec_positions())[i],
                ),
    {
        let positions = split_and_trim(jogador.get_positions().as_str());
        let name = jogador.get_name().clone();
        let id = jogador.get_id();
        let r = JogadorComRating {
            id,
            nome: name,
            posicoes: Positons { player_positions: positions },
            nota_sum: 0,
            avaliacoes: 0,
            tags: Vec::new(),
        };
        proof {
            assert(r.spec_tags() =~= Seq::<Seq<char>>::empty());
        }
        r
    }

    /// Folds one score into the running aggregate: the sum grows by the
    /// score and the count by one, exactly.
    pub fn add_rating(&mut self, rating: u32)
        requires
            old(self).wf(),
            old(self).spec_rating_count() < u32::MAX,
        ensures
            final(self).wf(),
            final(self).spec_rating_sum() == old(self).spec_rating_sum() + rating,
            final(self).spec_rating_count() == old(self).spec_rating_count() + 1,
            final(self).spec_id() == old(self).spec_id(),
            final(self).spec_name() == old(self).spec_name(),
            final(self).spec_positions() == old(self).spec_positions(),
            final(self).spec_tags() == old(self).spec_tags(),
    {
        proof {
            let s0 = self.nota_sum as int;
            let c0 = self.avaliacoes as int;
            let m = u32::MAX as int;
            assert(s0 + rating as int <= (c0 + 1) * m) by (nonlinear_arith)
                requires
                    s0 <= c0 * m,
                    rating as int <= m,
            ;
            assert((c0 + 1) * m <= m * m) by (nonlinear_arith)
                requires
                    c0 < m,
                    m > 0,
            ;
            assert(m * m < u64::MAX as int) by (nonlinear_arith)
                requires
                    m == 4294967295,
            ;
        }
        self.nota_sum = self.nota_sum + rating as u64;
        self.avaliacoes = self.avaliacoes + 1;
    }

    /// Records the tag text unless an equal text is already present.
    pub fn add_tag(&mut self, tag: Tag)
        ensures
            final(self).spec_id() == old(self).spec_id(),
            final(self).spec_name() == old(self).spec_name(),
            final(self).spec_positions() == old(self).spec_positions(),
            final(self).spec_rating_sum() == old(self).spec_rating_sum(),
            final(self).spec_rating_count() == old(self).spec_rating_count(),
            final(self).wf() == old(self).wf(),
            final(self).spec_tags() == (if old(self).spec_tags().contains(tag.spec_tag()) {
                old(self).spec_tags()
            } else {
                old(self).spec_tags().push(tag.spec_tag())
            }),
    {
        let mut found = false;
        let mut i: usize = 0;
        while i < self.tags.len()
            invariant_except_break
                found == false,
            invariant
                i <= self.tags@.len(),
                *self == *old(self),
                forall|j: int| 0 <= j < i ==> (#[trigger] self.tags@[j])@ != tag.spec_tag(),
            ensures
                *self == *old(self),
                found == old(self).spec_tags().contains(tag.spec_tag()),
            decreases self.tags@.len() - i,
        {
            if self.tags[i] == *tag.get_tag() {
                found = true;
                proof {
                    assert(old(self).spec_tags()[i as int] == tag.spec_tag());
                }
                break ;
            }
            i = i + 1;
        }
        if !found {
            let text = tag.get_tag().clone();
            self.tags.push(text);
            proof {
                assert(self.spec_tags() =~= old(self).spec_tags().push(tag.spec_tag()));
            }
        }
    }

    pub fn get_name(&self) -> (r: &String)
        ensures
            r@ == self.spec_name(),
    {
        &self.nome
    }

    pub fn get_sofifa_id(&self) -> (r: u32)
        ensures
            r == self.spec_id(),
    {
        self.id
    }

    /// The mean score in fixed-point units: the exact sum divided by the
    /// count, zero when no rating arrived yet.
    pub fn get_rating(&self) -> (r: u64)
        ensures
            r == (if self.spec_rating_count() == 0 {
                0
            } else {
                self.spec_rating_sum() as int / self.spec_rating_count() as int
            }),
    {
        if self.avaliacoes == 0 {
            0
        } else {
            self.nota_sum / (self.avaliacoes as u64)
        }
    }

    pub fn get_rating_sum(&self) -> (r: u64)
        ensures
            r == self.spec_rating_sum(),
    {
        self.nota_sum
    }

    pub fn get_tags(&self) -> (r: &Vec<String>)
        ensures
            tag_views(r@) == self.spec_tags(),
    {
        &self.tags
    }

    pub fn get_pos(&self) -> (r: &Positons)
        ensures
            position_views(*r) == self.spec_positions(),
    {
        &self.posicoes
    }

    pub fn get_rating_count(&self) -> (r: u32)
        ensures
            r == self.spec_rating_count(),
    {
        self.avaliacoes
    }
}

impl Clone for JogadorComRating {
    fn clone(&self) -> (r: Self)
        ensures
            r.spec_id() == self.spec_id(),
            r.spec_name() == self.spec_name(),
            r.spec_positions() == self.spec_positions(),
            r.spec_rating_sum() == self.spec_rating_sum(),
            r.spec_rating_count() == self.spec_rating_count(),
            r.spec_tags() == self.spec_tags(),
            r.wf() == self.wf(),
    {
        let mut positions: Vec<String> = Vec::new();
        let mut i: usize = 0;
        while i < self.posicoes.player_positions.len()
            invariant
                i <= self.posicoes.player_positions@.len(),
                positions@.len() == i,
                forall|j: int|
                    0 <= j < i ==> (#[trigger] positions@[j])@
                        == (self.posicoes.player_positions@[j])@,
            decreases self.posicoes.player_positions@.len() - i,
        {
            positions.push(self.posicoes.player_positions[i].clone());
            i = i + 1;
        }
        let mut tags: Vec<String> = Vec::new();
        let mut i: usize = 0;
        while i < self.tags.len()
            invariant
                i <= self.tags@.len(),
                tags@.len() == i,
                forall|j: int| 0 <= j < i ==> (#[trigger] tags@[j])@ == (self.tags@[j])@,
            decreases self.tags@.len() - i,
        {
            tags.push(self.tags[i].clone());
            i = i + 1;
        }
        let r = JogadorComRating {
            id: self.id,
            nome: self.nome.clone(),
            posicoes: Positons { player_positions: positions },
            nota_sum: self.nota_sum,
            avaliacoes: self.avaliacoes,
            tags,
        };
        proof {
            assert(r.spec_positions() =~= self.spec_positions());
            assert(r.spec_tags() =~= self.spec_tags());
        }
        r
    }
}

/// One rating event: a user scored a player. The score is a fixed-point
/// integer in the caller's scale.
#[derive(Debug, Clone, Copy, PartialEq, Eq, Structural)]
pub struct Rating {
    user_id: u32,
    sofifa_id: u32,
    rating: u32,
}

impl Rating {
    pub fn new(user_id: u32, sofifa_id: u32, rating: u32) -> (r: Self)
        ensures
            r.spec_user_id() == user_id,
            r.spec_player_id() == sofifa_id,
            r.spec_score() == rating,
    {
        Rating { user_id, sofifa_id, rating }
    }

    pub closed spec fn spec_user_id(self) -> u32 {
        self.user_id
    }

    pub closed spec fn spec_player_id(self) -> u32 {
        self.sofifa_id
    }

    pub closed spec fn spec_score(self) -> u32 {
        self.rating
    }

    pub fn get_user_id(&self) -> (r: u32)
        ensures
            r == self.spec_user_id(),
    {
        self.user_id
    }

    pub fn get_sofifa_id(&self) -> (r: u32)
        ensures
            r == self.spec_player_id(),
    {
        self.sofifa_id
    }

    pub fn get_rating(&self) -> (r: u32)
        ensures
            r == self.spec_score(),
    {
        self.rating
    }
}

/// A user and every rating they gave, in arrival order.
#[derive(Debug)]
pub struct User {
    id: u32,
    ratings: Vec<Rating>,
}

impl User {
    /// The user a first rating brings into existence: their identifier
    /// comes from that rating.
    pub fn from_rating(rating: Rating) -> (u: Self)
        ensures
            u.spec_id() == rating.spec_user_id(),
            u.spec_ratings() == seq![rating],
    {
        let mut ratings: Vec<Rating> = Vec::new();
        ratings.push(rating);
        proof {
            assert(ratings@ =~= seq![rating]);
        }
        User { ratings, id: rating.get_user_id() }
    }

    pub closed spec fn spec_id(self) -> u32 {
        self.id
    }

    pub closed spec fn spec_ratings(self) -> Seq<Rating> {
        self.ratings@
    }

    pub fn get_ratings(&self) -> (r: &Vec<Rating>)
        ensures
            r@ == self.spec_ratings(),
    {
        &self.ratings
    }

    /// Appends one more rating to the user's history.
    pub fn add_rating(&mut self, rating: &Rating)
        ensures
            final(self).spec_id() == old(self).spec_id(),
            final(self).spec_ratings() == old(self).spec_ratings().push(*rating),
    {
        self.ratings.push(*rating);
    }

    pub fn get_id(&self) -> (r: u32)
        ensures
            r == self.spec_id(),
    {
        self.id
    }
}

impl Clone for User {
    fn clone(&self) -> (r: Self)
        ensures
            r.spec_id() == self.spec_id(),
            r.spec_ratings() == self.spec_ratings(),
    {
        let mut ratings: Vec<Rating> = Vec::new();
        let mut i: usize = 0;
        while i < self.ratings.len()
            invariant
                i <= self.ratings@.len(),
                ratings@ =~= self.ratings@.take(i as int),
            decreases self.ratings@.len() - i,
        {
            ratings.push(self.ratings[i]);
            proof {
                assert(ratings@ =~= self.ratings@.take(i + 1));
            }
            i = i + 1;
        }
        proof {
            assert(ratings@ =~= self.ratings@);
        }
        User { id: self.id, ratings }
    }
}

/// A tag event: a tag text applied to a player.
#[derive(Debug)]
pub struct Tag {
    sofifa_id: u32,
    tag: String,
}

impl Tag {
    pub fn new(sofifa_id: u32, tag: String) -> (t: Self)
        ensures
            t.spec_id() == sofifa_id,
            t.spec_tag() == tag@,
    {
        Tag { sofifa_id, tag }
    }

    pub closed spec fn spec_id(self) -> u32 {
        self.sofifa_id
    }

    pub closed spec fn spec_tag(self) -> Seq<char> {
        self.tag@
    }

    pub fn get_id(&self) -> (r: u32)
        ensures
            r == self.spec_id(),
    {
        self.sofifa_id
    }

    pub fn get_tag(&self) -> (r: &String)
        ensures
            r@ == self.spec_tag(),
    {
        &self.tag
    }
}

impl Clone for Tag {
    fn clone(&self) -> (r: Self)
        ensures
            r.spec_id() == self.spec_id(),
            r.spec_tag() == self.spec_tag(),
    {
        Tag { sofifa_id: self.sofifa_id, tag: self.tag.clone() }
    }
}

/// Law: folding scores one at a time accumulates their exact sum and
/// count, so the mean the player reports is the exact total divided by
/// the number of scores.
pub open spec fn fold_ratings(sum0: int, count0: int, scores: Seq<u32>) -> (int, int)
    decreases scores.len(),
{
    if scores.len() == 0 {
        (sum0, count0)
    } else {
        fold_ratings(sum0 + scores.first(), count0 + 1, scores.drop_first())
    }
}

/// Law: after applying scores one by one, the aggregate's sum is the
/// starting sum plus the total of the scores, and its count grew by
/// exactly their number.
pub proof fn lemma_rating_aggregation(sum0: int, count0: int, scores: Seq<u32>)
    ensures
        fold_ratings(sum0, count0, scores).0 == sum0 + sum_of(scores),
        fold_ratings(sum0, count0, scores).1 == count0 + scores.len(),
    decreases scores.len(),
{
    if scores.len() > 0 {
        lemma_rating_aggregation(sum0 + scores.first(), count0 + 1, scores.drop_first());
    }
}

/// The total of a sequence of scores.
pub open spec fn sum_of(scores: Seq<u32>) -> int
    decreases scores.len(),
{
    if scores.len() == 0 {
        0
    } else {
        scores.first() + sum_of(scores.drop_first())
    }
}

} // verus!
