//! The embedding database: identity names and their embedding vectors.
use vstd::prelude::*;

verus! {

/// Dimensionality of an embedding vector.
pub const EMBEDDING_DIM: usize = 512;

/// One enrolled identity and its embedding.
pub struct Identity<V> {
    pub name: String,
    pub embedding: Vec<V>,
}

/// Maps identity name to embedding vector, in the order of enrolment.
pub struct EmbeddingDb<V> {
    identities: Vec<Identity<V>>,
}

/// Whether an identity of that name is enrolled.
pub open spec fn enrolled<V>(db: Seq<(Seq<char>, Seq<V>)>, name: Seq<char>) -> bool {
    exists|i: int| 0 <= i < db.len() && (#[trigger] db[i]).0 == name
}

/// No name is enrolled twice.
pub open spec fn names_distinct<V>(db: Seq<(Seq<char>, Seq<V>)>) -> bool {
    forall|i: int, j: int|
        0 <= i < j < db.len() ==> (#[trigger] db[i]).0 != (#[trigger] db[j]).0
}

/// The database after `name` got the embedding `v`: in the place of the one it
/// had, or at the end.
pub open spec fn inserted<V>(
    db: Seq<(Seq<char>, Seq<V>)>,
    name: Seq<char>,
    v: Seq<V>,
) -> Seq<(Seq<char>, Seq<V>)> {
    if enrolled(db, name) {
        Seq::new(
            db.len(),
            |i: int|
                if db[i].0 == name {
                    (name, v)
                } else {
                    db[i]
                },
        )
    } else {
        db.push((name, v))
    }
}

/// The map from names to embeddings that the database stands for.
pub open spec fn name_map<V>(db: Seq<(Seq<char>, Seq<V>)>) -> Map<Seq<char>, Seq<V>> {
    Map::new(
        |name: Seq<char>| enrolled(db, name),
        |name: Seq<char>| db[choose|i: int| 0 <= i < db.len() && (#[trigger] db[i]).0 == name].1,
    )
}

impl<V> EmbeddingDb<V> {
    /// The identities in order, each as its name and its embedding.
    pub closed spec fn view(&self) -> Seq<(Seq<char>, Seq<V>)> {
        Seq::new(
            self.identities@.len(),
            |i: int| (self.identities@[i].name@, self.identities@[i].embedding@),
        )
    }

    /// No name is enrolled twice.
    pub open spec fn well_formed(&self) -> bool {
        names_distinct(self@)
    }

    /// A database without identities.
    pub fn new() -> (db: Self)
        ensures
            db.well_formed(),
            db@ == Seq::<(Seq<char>, Seq<V>)>::empty(),
    {
        let db = EmbeddingDb { identities: Vec::new() };
        assert(db@ =~= Seq::<(Seq<char>, Seq<V>)>::empty());
        db
    }

    /// The number of identities.
    pub fn len(&self) -> (n: usize)
        ensures
            n == self@.len(),
    {
        self.identities.len()
    }

    /// Whether no identity is enrolled.
    pub fn is_empty(&self) -> (empty: bool)
        ensures
            empty == (self@.len() == 0),
    {
        self.identities.len() == 0
    }

    /// The identities in order.
    pub fn identities(&self) -> (all: &Vec<Identity<V>>)
        ensures
            all@.len() == self@.len(),
            forall|i: int|
                0 <= i < all@.len() ==> (#[trigger] all@[i]).name@ == self@[i].0
                    && all@[i].embedding@ == self@[i].1,
    {
        &self.identities
    }

    /// Gives `name` the embedding, in the place of the one it had or at the
    /// end.
    pub fn insert(&mut self, name: String, embedding: Vec<V>)
        requires
            old(self).well_formed(),
        ensures
            final(self).well_formed(),
            final(self)@ == inserted(old(self)@, name@, embedding@),
    {
        let ghost before = self@;
        let ghost key = name@;
        let ghost value = embedding@;
        match self.position(&name) {
            Some(i) => {
                self.identities.set(i, Identity { name, embedding });
                assert(self@ =~= before.update(i as int, (key, value)));
                assert(before[i as int].0 == key);
                assert(self@ =~= inserted(before, key, value));
            },
            None => {
                self.identities.push(Identity { name, embedding });
                assert(self@ =~= before.push((key, value)));
            },
        }
    }

    /// The place of the identity of that name.
    fn position(&self, name: &String) -> (place: Option<usize>)
        ensures
            match place {
                Some(i) => i < self@.len() && self@[i as int].0 == name@,
                None => !enrolled(self@, name@),
            },
    {
        for i in 0..self.identities.len()
            invariant
                forall|j: int| 0 <= j < i ==> (#[trigger] self@[j]).0 != name@,
        {
            assert(self@[i as int].0 == self.identities@[i as int].name@);
            if self.identities[i].name == *name {
                return Some(i);
            }
        }
        None
    }
}

/// Inserting into the database is inserting into the map that it stands for:
/// the name has the new embedding, and every other name what it had.
pub proof fn law_insert_is_map_insert<V>(
    db: Seq<(Seq<char>, Seq<V>)>,
    name: Seq<char>,
    v: Seq<V>,
)
    requires
        names_distinct(db),
    ensures
        names_distinct(inserted(db, name, v)),
        name_map(inserted(db, name, v)) == name_map(db).insert(name, v),
{
    let after = inserted(db, name, v);
    assert forall|n: Seq<char>| enrolled(after, n) <==> (enrolled(db, n) || n == name) by {
        if enrolled(after, n) {
            let i = choose|i: int| 0 <= i < after.len() && (#[trigger] after[i]).0 == n;
            if i < db.len() {
                assert(db[i].0 == n);
            }
        }
        if enrolled(db, n) {
            let i = choose|i: int| 0 <= i < db.len() && (#[trigger] db[i]).0 == n;
            assert(after[i].0 == n);
        }
        if !enrolled(db, name) {
            assert(after[db.len() as int].0 == name);
        }
    }
    assert(name_map(after).dom() =~= name_map(db).insert(name, v).dom());
    assert forall|n: Seq<char>| enrolled(after, n) implies name_map(after)[n] == name_map(
        db,
    ).insert(name, v)[n] by {
        let i = choose|i: int| 0 <= i < after.len() && (#[trigger] after[i]).0 == n;
        if n == name {
            assert(after[i].1 == v);
        } else {
            assert(i < db.len() && db[i] == after[i]);
            let j = choose|j: int| 0 <= j < db.len() && (#[trigger] db[j]).0 == n;
            assert(db[j].0 == db[i].0);
            assert(i == j);
        }
    }
    assert(name_map(after) =~= name_map(db).insert(name, v));
}

} // verus!
