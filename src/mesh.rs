//! The active mesh: vertices, faces of vertex indices and a bounding
//! rectangle, replaced together so that no face ever names a vertex that
//! is not there.
use vstd::prelude::*;

verus! {

/// The index lists of a face table.
pub open spec fn faces_view(fs: Seq<Vec<usize>>) -> Seq<Seq<usize>> {
    fs.map_values(|f: Vec<usize>| f@)
}

/// Every index of every face is below `n`.
pub open spec fn faces_in_range(fs: Seq<Seq<usize>>, n: int) -> bool {
    forall|i: int, j: int| 0 <= i < fs.len() && 0 <= j < fs[i].len() ==> #[trigger] fs[i][j] < n
}

/// Tells whether every index of every face is below `n`.
pub fn faces_within(fs: &Vec<Vec<usize>>, n: usize) -> (r: bool)
    ensures
        r == faces_in_range(faces_view(fs@), n as int),
{
    let mut i: usize = 0;
    while i < fs.len()
        invariant
            i <= fs@.len(),
            faces_in_range(faces_view(fs@).take(i as int), n as int),
        decreases fs@.len() - i,
    {
        let f = &fs[i];
        let mut j: usize = 0;
        while j < f.len()
            invariant
                i < fs@.len(),
                f == fs@[i as int],
                j <= f@.len(),
                forall|k: int| 0 <= k < j ==> #[trigger] f@[k] < n,
            decreases f@.len() - j,
        {
            if f[j] >= n {
                assert(faces_view(fs@)[i as int][j as int] == f@[j as int]);
                return false;
            }
            j = j + 1;
        }
        proof {
            let t = faces_view(fs@).take(i + 1);
            assert forall|a: int, b: int| 0 <= a < t.len() && 0 <= b < t[a].len() implies #[trigger] t[a][b]
                < n by {
                if a < i {
                    assert(t[a] == faces_view(fs@).take(i as int)[a]);
                } else {
                    assert(t[a] == f@);
                }
            }
        }
        i = i + 1;
    }
    assert(faces_view(fs@).take(i as int) =~= faces_view(fs@));
    true
}

/// The edges of one face: each index to the next, the last back to the
/// first.
pub open spec fn face_edges(f: Seq<usize>) -> Seq<(usize, usize)> {
    Seq::new(f.len(), |i: int| (f[i], f[(i + 1) % (f.len() as int)]))
}

/// The edges of every face, face by face.
pub open spec fn edges_of(fs: Seq<Seq<usize>>) -> Seq<(usize, usize)>
    decreases fs.len(),
{
    if fs.len() == 0 {
        Seq::empty()
    } else {
        edges_of(fs.drop_last()) + face_edges(fs.last())
    }
}

/// Why a load left the mesh as it was.
#[derive(Debug, PartialEq, Eq, Structural)]
pub enum LoadError<E> {
    /// Reading or parsing failed, for the reason given.
    Failed(E),
    /// A face names a vertex that the new vertex list does not hold.
    IndexOutOfRange,
}

/// The active mesh: a vertex list, a face list of indices into it and a
/// bounding rectangle. The vertex and rectangle types are the caller's; the
/// store only guarantees that every face index names a vertex.
pub struct MeshStore<V, R> {
    vertices: Vec<V>,
    faces: Vec<Vec<usize>>,
    bounds: R,
}

impl<V, R> MeshStore<V, R> {
    /// The vertices, the faces and the bounding rectangle.
    pub closed spec fn view(&self) -> (Seq<V>, Seq<Seq<usize>>, R) {
        (self.vertices@, faces_view(self.faces@), self.bounds)
    }

    #[verifier::type_invariant]
    spec fn inv(&self) -> bool {
        faces_in_range(faces_view(self.faces@), self.vertices@.len() as int)
    }

    /// A store holding the given mesh, or `None` when a face names a vertex
    /// beyond the list.
    pub fn new(vertices: Vec<V>, faces: Vec<Vec<usize>>, bounds: R) -> (r: Option<Self>)
        ensures
            r is Some <==> faces_in_range(faces_view(faces@), vertices@.len() as int),
            r matches Some(m) ==> m.view() == (vertices@, faces_view(faces@), bounds),
    {
        if faces_within(&faces, vertices.len()) {
            Some(MeshStore { vertices, faces, bounds })
        } else {
            None
        }
    }

    /// Makes the given mesh the active one, all three parts together, and
    /// returns `true`; when a face names a vertex beyond the new list,
    /// returns `false` and keeps the store as it was.
    pub fn replace(&mut self, vertices: Vec<V>, faces: Vec<Vec<usize>>, bounds: R) -> (r: bool)
        ensures
            r == faces_in_range(faces_view(faces@), vertices@.len() as int),
            r ==> final(self).view() == (vertices@, faces_view(faces@), bounds),
            !r ==> final(self).view() == old(self).view(),
    {
        if faces_within(&faces, vertices.len()) {
            *self = MeshStore { vertices, faces, bounds };
            true
        } else {
            false
        }
    }

    /// Applies the outcome of a load. A failed load, or one whose faces name
    /// missing vertices, leaves the store as it was and says why.
    pub fn load<E>(&mut self, outcome: Result<(Vec<V>, Vec<Vec<usize>>, R), E>) -> (r: Result<
        (),
        LoadError<E>,
    >)
        ensures
            match outcome {
                Err(e) => r == Err::<(), LoadError<E>>(LoadError::Failed(e)) && final(self).view()
                    == old(self).view(),
                Ok((vs, fs, b)) => if faces_in_range(faces_view(fs@), vs@.len() as int) {
                    r is Ok && final(self).view() == (vs@, faces_view(fs@), b)
                } else {
                    r == Err::<(), LoadError<E>>(LoadError::IndexOutOfRange) && final(self).view()
                        == old(self).view()
                },
            },
    {
        match outcome {
            Err(e) => Err(LoadError::Failed(e)),
            Ok((vs, fs, b)) => {
                if self.replace(vs, fs, b) {
                    Ok(())
                } else {
                    Err(LoadError::IndexOutOfRange)
                }
            },
        }
    }

    pub fn vertices(&self) -> (r: &Vec<V>)
        ensures
            r@ == self.view().0,
    {
        &self.vertices
    }

    /// The faces; each names only vertices that the store holds.
    pub fn faces(&self) -> (r: &Vec<Vec<usize>>)
        ensures
            faces_view(r@) == self.view().1,
            faces_in_range(self.view().1, self.view().0.len() as int),
    {
        proof {
            use_type_invariant(self);
        }
        &self.faces
    }

    pub fn bounds(&self) -> (r: &R)
        ensures
            *r == self.view().2,
    {
        &self.bounds
    }

    /// The edges to draw, face by face: each index of a face to the next,
    /// the last back to the first. Every endpoint names a vertex.
    pub fn edges(&self) -> (r: Vec<(usize, usize)>)
        ensures
            r@ == edges_of(self.view().1),
            forall|k: int|
                0 <= k < r@.len() ==> (#[trigger] r@[k]).0 < self.view().0.len() && r@[k].1
                    < self.view().0.len(),
    {
        proof {
            use_type_invariant(self);
        }
        let ghost fs = faces_view(self.faces@);
        let ghost nv = self.vertices@.len() as int;
        let mut r: Vec<(usize, usize)> = Vec::new();
        let mut i: usize = 0;
        assert(fs.take(0) =~= Seq::<Seq<usize>>::empty());
        while i < self.faces.len()
            invariant
                i <= self.faces@.len(),
                fs == faces_view(self.faces@),
                nv == self.vertices@.len(),
                faces_in_range(fs, nv),
                r@ == edges_of(fs.take(i as int)),
                forall|k: int| 0 <= k < r@.len() ==> (#[trigger] r@[k]).0 < nv && r@[k].1 < nv,
            decreases self.faces@.len() - i,
        {
            let f = &self.faces[i];
            let n = f.len();
            let ghost before = r@;
            assert(f@ == fs[i as int]);
            let mut j: usize = 0;
            while j < n
                invariant
                    j <= n,
                    n == f@.len(),
                    i < fs.len(),
                    f@ == fs[i as int],
                    faces_in_range(fs, nv),
                    r@ == before + face_edges(f@).take(j as int),
                    forall|k: int| 0 <= k < r@.len() ==> (#[trigger] r@[k]).0 < nv && r@[k].1 < nv,
                decreases n - j,
            {
                let next: usize = if j + 1 == n {
                    0
                } else {
                    j + 1
                };
                proof {
                    if j + 1 == n {
                        vstd::arithmetic::div_mod::lemma_mod_self_0(n as int);
                    } else {
                        vstd::arithmetic::div_mod::lemma_small_mod((j + 1) as nat, n as nat);
                    }
                }
                assert(next as int == (j + 1) % (n as int));
                assert(fs[i as int][j as int] < nv);
                assert(fs[i as int][next as int] < nv);
                let e = (f[j], f[next]);
                assert(face_edges(f@).take(j + 1) =~= face_edges(f@).take(j as int).push(e));
                r.push(e);
                j = j + 1;
            }
            assert(face_edges(f@).take(n as int) =~= face_edges(f@));
            assert(fs.take(i + 1).drop_last() =~= fs.take(i as int));
            i = i + 1;
        }
        assert(fs.take(i as int) =~= fs);
        r
    }
}

} // verus!
