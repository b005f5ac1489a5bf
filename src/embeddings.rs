use vstd::prelude::*;

use crate::error::IndexError;
use crate::metric::DIM_LIMIT;
use crate::text_splitters::strings_view;

verus! {

/// A configured embedding model and the length of the vectors it produces.
pub struct EmbeddingModel {
    pub name: String,
    pub dimensions: usize,
}

pub open spec fn catalog_view(models: Seq<EmbeddingModel>) -> Seq<(Seq<char>, usize)> {
    models.map_values(|m: EmbeddingModel| (m.name@, m.dimensions))
}

/// The dimension of the first model called `name` in `cat`.
pub open spec fn dims_of(cat: Seq<(Seq<char>, usize)>, name: Seq<char>) -> Option<usize>
    decreases cat.len(),
{
    if cat.len() == 0 {
        None
    } else if cat[0].0 == name {
        Some(cat[0].1)
    } else {
        dims_of(cat.drop_first(), name)
    }
}

pub open spec fn dims_ok(cat: Seq<(Seq<char>, usize)>) -> bool {
    forall|i: int| 0 <= i < cat.len() ==> 0 < (#[trigger] cat[i]).1 <= DIM_LIMIT
}

proof fn lemma_dims_of_ok(cat: Seq<(Seq<char>, usize)>, name: Seq<char>)
    requires
        dims_ok(cat),
    ensures
        dims_of(cat, name) matches Some(d) ==> 0 < d <= DIM_LIMIT,
    decreases cat.len(),
{
    if cat.len() > 0 {
        assert(cat[0].1 == cat[0].1);
        lemma_dims_of_ok(cat.drop_first(), name);
    }
}

/// Maps model names to the models' vector dimensions, in configuration order.
pub struct EmbeddingRouter {
    pub models: Vec<EmbeddingModel>,
}

impl EmbeddingRouter {
    pub open spec fn catalog(&self) -> Seq<(Seq<char>, usize)> {
        catalog_view(self.models@)
    }

    pub open spec fn wf(&self) -> bool {
        dims_ok(self.catalog())
    }

    /// A router over `models`; refused when a model's dimension is zero or too large.
    pub fn new(models: Vec<EmbeddingModel>) -> (r: Option<Self>)
        ensures
            r is Some <==> dims_ok(catalog_view(models@)),
            r matches Some(router) ==> router.wf() && router.catalog() == catalog_view(models@),
    {
        let mut i: usize = 0;
        while i < models.len()
            invariant
                i <= models@.len(),
                forall|j: int| 0 <= j < i ==> 0 < (#[trigger] catalog_view(models@)[j]).1 <= DIM_LIMIT,
            decreases models@.len() - i,
        {
            let d = models[i].dimensions;
            assert(catalog_view(models@)[i as int].1 == d);
            if d == 0 || d > DIM_LIMIT {
                return None;
            }
            i = i + 1;
        }
        Some(EmbeddingRouter { models })
    }

    /// The names of the configured models, in configuration order.
    pub fn list_models(&self) -> (r: Vec<String>)
        ensures
            r@.len() == self.catalog().len(),
            forall|i: int| 0 <= i < r@.len() ==> (#[trigger] r@[i])@ == self.catalog()[i].0,
    {
        let mut names: Vec<String> = Vec::new();
        let mut i: usize = 0;
        while i < self.models.len()
            invariant
                i <= self.models@.len(),
                names@.len() == i,
                forall|j: int| 0 <= j < i ==> (#[trigger] names@[j])@ == self.catalog()[j].0,
            decreases self.models@.len() - i,
        {
            names.push(self.models[i].name.clone());
            i = i + 1;
        }
        names
    }

    /// The vector dimension of model `name`; `UnknownModel` when none is configured.
    pub fn dimensions(&self, name: &String) -> (r: Result<usize, IndexError>)
        requires
            self.wf(),
        ensures
            match dims_of(self.catalog(), name@) {
                Some(d) => r == Ok::<usize, IndexError>(d) && 0 < d <= DIM_LIMIT,
                None => r matches Err(IndexError::UnknownModel),
            },
    {
        proof {
            lemma_dims_of_ok(self.catalog(), name@);
        }
        let ghost cat = self.catalog();
        let mut i: usize = 0;
        assert(cat.subrange(0, cat.len() as int) =~= cat);
        while i < self.models.len()
            invariant
                cat == self.catalog(),
                i <= self.models@.len(),
                cat.len() == self.models@.len(),
                dims_of(cat, name@) == dims_of(cat.subrange(i as int, cat.len() as int), name@),
                dims_of(cat, name@) matches Some(d) ==> 0 < d <= DIM_LIMIT,
            decreases self.models@.len() - i,
        {
            let ghost rest = cat.subrange(i as int, cat.len() as int);
            assert(rest[0] == cat[i as int]);
            assert(cat[i as int] == (self.models@[i as int].name@, self.models@[i as int].dimensions));
            if self.models[i].name.eq(name) {
                return Ok(self.models[i].dimensions);
            }
            assert(rest.drop_first() =~= cat.subrange(i as int + 1, cat.len() as int));
            i = i + 1;
        }
        Err(IndexError::UnknownModel)
    }
}

} // verus!
