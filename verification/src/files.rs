//! Resolving the files that a program loads.

use crate::request::{asset_views, pair_views, Request};
use crate::text::{chars_of, copy_bytes, join, joined, same_text, text_between};
use vstd::prelude::*;
use vstd::utf8::encode_utf8;

verus! {

/// A loaded source file.
#[derive(Debug)]
pub struct LoadedFile {
    /// A canonical key that identifies the file, for cycle detection.
    pub key: String,
    pub source: String,
    /// Directory of the loaded file, the base of its own relative paths.
    pub dir: String,
}

/// Resolves paths to sources and bytes. Hosts supply their own.
pub trait FileResolver {
    fn load(&self, path: &str, from_dir: &str) -> Option<LoadedFile>;

    /// Raw bytes of a binary asset.
    fn load_bytes(&self, path: &str, from_dir: &str) -> Option<Vec<u8>>;
}

/// A resolver that never finds anything.
pub struct NullResolver;

impl FileResolver for NullResolver {
    fn load(&self, path: &str, from_dir: &str) -> (r: Option<LoadedFile>)
        ensures
            r is None,
    {
        None
    }

    fn load_bytes(&self, path: &str, from_dir: &str) -> (r: Option<Vec<u8>>)
        ensures
            r is None,
    {
        None
    }
}

/// The map that an association list stands for: of several entries with one
/// name the last counts.
pub open spec fn as_map<V>(s: Seq<(Seq<char>, V)>) -> Map<Seq<char>, V>
    decreases s.len(),
{
    if s.len() == 0 {
        Map::empty()
    } else {
        as_map(s.drop_last()).insert(s.last().0, s.last().1)
    }
}

/// A path as seen from a directory.
pub open spec fn beneath(path: Seq<char>, from_dir: Seq<char>) -> Seq<char> {
    if from_dir.len() == 0 || from_dir == "."@ {
        path
    } else {
        from_dir + "/"@ + path
    }
}

/// The key under which a path is found: as written, then as seen from the
/// directory of the file that names it.
pub open spec fn resolved<V>(
    m: Map<Seq<char>, V>,
    path: Seq<char>,
    from_dir: Seq<char>,
) -> Option<Seq<char>> {
    if m.contains_key(path) {
        Some(path)
    } else if m.contains_key(beneath(path, from_dir)) {
        Some(beneath(path, from_dir))
    } else {
        None
    }
}

/// What stands before the last slash; nothing where there is none.
pub open spec fn directory(s: Seq<char>) -> Seq<char>
    decreases s.len(),
{
    if s.len() == 0 {
        Seq::empty()
    } else if s.last() == '/' {
        s.drop_last()
    } else {
        directory(s.drop_last())
    }
}

fn beneath_text(path: &str, from_dir: &str) -> (r: String)
    ensures
        r@ == beneath(path@, from_dir@),
{
    if from_dir.is_empty() || same_text(from_dir, ".") {
        path.to_owned()
    } else {
        let mut s = from_dir.to_owned();
        s.append("/");
        s.append(path);
        s
    }
}

fn directory_text(key: &str) -> (r: String)
    ensures
        r@ == directory(key@),
{
    let v = chars_of(key);
    let mut i: usize = v.len();
    assert(v@.take(i as int) =~= v@);
    while i > 0
        invariant
            v@ == key@,
            i <= v@.len(),
            directory(v@) == directory(v@.take(i as int)),
        decreases i,
    {
        proof {
            assert(v@.take(i as int).drop_last() =~= v@.take(i - 1));
        }
        if v[i - 1] == '/' {
            let s = text_between(&v, 0, i - 1);
            assert(v@.subrange(0, i - 1) =~= v@.take(i - 1));
            return s;
        }
        i = i - 1;
    }
    let s = String::new();
    assert(s@ =~= directory(v@.take(0)));
    s
}

/// Files held in memory: sources and text assets, and binary assets.
pub struct MapResolver {
    files: Vec<(String, String)>,
    bins: Vec<(String, Vec<u8>)>,
}

fn find_text(v: &Vec<(String, String)>, name: &str) -> (r: Option<usize>)
    ensures
        match r {
            Some(i) => {
                &&& i < v@.len()
                &&& as_map(pair_views(v@)).contains_key(name@)
                &&& as_map(pair_views(v@))[name@] == v@[i as int].1@
            },
            None => !as_map(pair_views(v@)).contains_key(name@),
        },
{
    let ghost views = pair_views(v@);
    let mut i: usize = v.len();
    assert(views.take(i as int) =~= views);
    while i > 0
        invariant
            i <= v@.len(),
            views == pair_views(v@),
            as_map(views).contains_key(name@) == as_map(views.take(i as int)).contains_key(name@),
            as_map(views).contains_key(name@) ==> as_map(views)[name@] == as_map(
                views.take(i as int),
            )[name@],
        decreases i,
    {
        proof {
            assert(views.take(i as int).drop_last() =~= views.take(i - 1));
            assert(views.take(i as int).last() == (v@[i - 1].0@, v@[i - 1].1@));
        }
        if same_text(v[i - 1].0.as_str(), name) {
            return Some(i - 1);
        }
        i = i - 1;
    }
    None
}

fn find_asset(v: &Vec<(String, Vec<u8>)>, name: &str) -> (r: Option<usize>)
    ensures
        match r {
            Some(i) => {
                &&& i < v@.len()
                &&& as_map(asset_views(v@)).contains_key(name@)
                &&& as_map(asset_views(v@))[name@] == v@[i as int].1@
            },
            None => !as_map(asset_views(v@)).contains_key(name@),
        },
{
    let ghost views = asset_views(v@);
    let mut i: usize = v.len();
    assert(views.take(i as int) =~= views);
    while i > 0
        invariant
            i <= v@.len(),
            views == asset_views(v@),
            as_map(views).contains_key(name@) == as_map(views.take(i as int)).contains_key(name@),
            as_map(views).contains_key(name@) ==> as_map(views)[name@] == as_map(
                views.take(i as int),
            )[name@],
        decreases i,
    {
        proof {
            assert(views.take(i as int).drop_last() =~= views.take(i - 1));
            assert(views.take(i as int).last() == (v@[i - 1].0@, v@[i - 1].1@));
        }
        if same_text(v[i - 1].0.as_str(), name) {
            return Some(i - 1);
        }
        i = i - 1;
    }
    None
}

impl MapResolver {
    /// The text files by name.
    pub closed spec fn texts(&self) -> Map<Seq<char>, Seq<char>> {
        as_map(pair_views(self.files@))
    }

    /// The binary assets by name.
    pub closed spec fn assets(&self) -> Map<Seq<char>, Seq<u8>> {
        as_map(asset_views(self.bins@))
    }

    /// The resolver over a request's files.
    pub fn new(request: &Request) -> (r: Self)
        ensures
            r.texts() == as_map(request@.files),
            r.assets() == as_map(request@.binary_files),
    {
        let mut files: Vec<(String, String)> = Vec::new();
        for i in 0..request.files.len()
            invariant
                files@ =~= request.files@.take(i as int),
        {
            files.push((request.files[i].0.clone(), request.files[i].1.clone()));
        }
        assert(files@ =~= request.files@);
        let mut bins: Vec<(String, Vec<u8>)> = Vec::new();
        for i in 0..request.binary_files.len()
            invariant
                asset_views(bins@) =~= asset_views(request.binary_files@).take(i as int),
        {
            let ghost before = bins@;
            bins.push(
                (request.binary_files[i].0.clone(), copy_bytes(&request.binary_files[i].1)),
            );
            assert(asset_views(bins@) =~= asset_views(before).push(
                asset_views(request.binary_files@)[i as int],
            ));
        }
        assert(asset_views(bins@) =~= asset_views(request.binary_files@));
        MapResolver { files, bins }
    }
}

impl FileResolver for MapResolver {
    /// A text file, found as written or beneath the directory.
    fn load(&self, path: &str, from_dir: &str) -> (r: Option<LoadedFile>)
        ensures
            match r {
                Some(f) => {
                    &&& resolved(self.texts(), path@, from_dir@) == Some(f.key@)
                    &&& f.source@ == self.texts()[f.key@]
                    &&& f.dir@ == directory(f.key@)
                },
                None => resolved(self.texts(), path@, from_dir@) is None,
            },
    {
        match find_text(&self.files, path) {
            Some(i) => Some(
                LoadedFile {
                    key: path.to_owned(),
                    source: self.files[i].1.clone(),
                    dir: directory_text(path),
                },
            ),
            None => {
                let key = beneath_text(path, from_dir);
                match find_text(&self.files, key.as_str()) {
                    Some(i) => {
                        let source = self.files[i].1.clone();
                        let dir = directory_text(key.as_str());
                        Some(LoadedFile { key, source, dir })
                    },
                    None => None,
                }
            },
        }
    }

    /// Bytes for an import. A binary asset wins; else the bytes of a text file.
    fn load_bytes(&self, path: &str, from_dir: &str) -> (r: Option<Vec<u8>>)
        ensures
            match r {
                Some(b) => b@ == match resolved(self.assets(), path@, from_dir@) {
                    Some(key) => self.assets()[key],
                    None => encode_utf8(
                        self.texts()[resolved(self.texts(), path@, from_dir@)->0],
                    ),
                },
                None => resolved(self.assets(), path@, from_dir@) is None && resolved(
                    self.texts(),
                    path@,
                    from_dir@,
                ) is None,
            },
            resolved(self.assets(), path@, from_dir@) is Some || resolved(
                self.texts(),
                path@,
                from_dir@,
            ) is Some ==> r is Some,
    {
        let key = beneath_text(path, from_dir);
        if let Some(i) = find_asset(&self.bins, path) {
            return Some(copy_bytes(&self.bins[i].1));
        }
        if let Some(i) = find_asset(&self.bins, key.as_str()) {
            return Some(copy_bytes(&self.bins[i].1));
        }
        if let Some(i) = find_text(&self.files, path) {
            return Some(self.files[i].1.as_str().as_bytes_vec());
        }
        match find_text(&self.files, key.as_str()) {
            Some(i) => Some(self.files[i].1.as_str().as_bytes_vec()),
            None => None,
        }
    }
}

// ---- joining directories ----------------------------------------------------------

/// The parts between slashes; one more than there are slashes.
pub open spec fn segments(s: Seq<char>) -> Seq<Seq<char>>
    decreases s.len(),
{
    if s.len() == 0 {
        seq![Seq::empty()]
    } else {
        let before = segments(s.drop_last());
        if s.last() == '/' {
            before.push(Seq::empty())
        } else {
            before.drop_last().push(before.last().push(s.last()))
        }
    }
}

/// One step of normalization: an empty part or a dot adds nothing, two dots
/// take back the part before, anything else is added.
pub open spec fn stepped(done: Seq<Seq<char>>, part: Seq<char>) -> Seq<Seq<char>> {
    if part.len() == 0 || part == "."@ {
        done
    } else if part == ".."@ {
        if done.len() == 0 {
            done
        } else {
            done.drop_last()
        }
    } else {
        done.push(part)
    }
}

/// The parts after normalization.
pub open spec fn normalized(parts: Seq<Seq<char>>) -> Seq<Seq<char>>
    decreases parts.len(),
{
    if parts.len() == 0 {
        Seq::empty()
    } else {
        stepped(normalized(parts.drop_last()), parts.last())
    }
}

/// `path` resolved against `dir`. An absolute path, and any path where `dir` is
/// empty, is unchanged; a leading slash of `dir` is kept.
pub open spec fn dir_joined(dir: Seq<char>, path: Seq<char>) -> Seq<char> {
    if dir.len() == 0 || (path.len() > 0 && path[0] == '/') {
        path
    } else {
        let parts = joined(normalized(segments(dir) + segments(path)), "/"@);
        if dir[0] == '/' {
            "/"@ + parts
        } else {
            parts
        }
    }
}

proof fn lemma_segments_some(s: Seq<char>)
    ensures
        segments(s).len() > 0,
    decreases s.len(),
{
    if s.len() > 0 {
        lemma_segments_some(s.drop_last());
    }
}

fn split_parts(s: &str) -> (r: Vec<String>)
    ensures
        crate::blob::texts(r@) == segments(s@),
{
    let v = chars_of(s);
    let mut parts: Vec<String> = Vec::new();
    let mut cur = String::new();
    assert(v@.take(0) =~= Seq::empty());
    assert(crate::blob::texts(parts@).push(cur@) =~= segments(v@.take(0)));
    for i in 0..v.len()
        invariant
            v@ == s@,
            crate::blob::texts(parts@).push(cur@) =~= segments(v@.take(i as int)),
    {
        let ghost (p0, c0) = (parts@, cur@);
        proof {
            lemma_segments_some(v@.take(i as int));
            assert(v@.take(i + 1).drop_last() =~= v@.take(i as int));
            assert(v@.take(i + 1).last() == v@[i as int]);
        }
        if v[i] == '/' {
            parts.push(cur);
            cur = String::new();
            assert(crate::blob::texts(parts@) =~= crate::blob::texts(p0).push(c0));
        } else {
            cur.push(v[i]);
            assert(crate::blob::texts(p0).push(c0).drop_last() =~= crate::blob::texts(p0));
        }
    }
    let ghost (p0, c0) = (parts@, cur@);
    parts.push(cur);
    proof {
        assert(v@.take(v@.len() as int) =~= v@);
        assert(crate::blob::texts(parts@) =~= crate::blob::texts(p0).push(c0));
    }
    parts
}

/// Resolves `path` against directory `dir`, normalizing dot segments.
pub fn join_dir(dir: &str, path: &str) -> (r: String)
    ensures
        r@ == dir_joined(dir@, path@),
{
    let d = chars_of(dir);
    let p = chars_of(path);
    if d.len() == 0 || (p.len() > 0 && p[0] == '/') {
        return path.to_owned();
    }
    let mut all = split_parts(dir);
    let mut more = split_parts(path);
    let ghost (a0, m0) = (all@, more@);
    all.append(&mut more);
    assert(crate::blob::texts(all@) =~= segments(dir@) + segments(path@));
    let mut parts: Vec<String> = Vec::new();
    let ghost views = crate::blob::texts(all@);
    assert(views.take(0) =~= Seq::empty());
    assert(crate::blob::texts(parts@) =~= normalized(views.take(0)));
    for i in 0..all.len()
        invariant
            views == crate::blob::texts(all@),
            crate::blob::texts(parts@) =~= normalized(views.take(i as int)),
    {
        let seg = all[i].as_str();
        let ghost before = parts@;
        proof {
            assert(views.take(i + 1).drop_last() =~= views.take(i as int));
            assert(views.take(i + 1).last() == seg@);
        }
        if seg.is_empty() || same_text(seg, ".") {
        } else if same_text(seg, "..") {
            parts.pop();
            proof {
                if before.len() > 0 {
                    assert(crate::blob::texts(parts@) =~= crate::blob::texts(before).drop_last());
                }
            }
        } else {
            parts.push(all[i].clone());
            assert(crate::blob::texts(parts@) =~= crate::blob::texts(before).push(seg@));
        }
    }
    assert(views.take(all@.len() as int) =~= views);
    let body = join(&parts, "/");
    if d[0] == '/' {
        let mut s = String::new();
        s.append("/");
        s.append(body.as_str());
        assert(s@ =~= "/"@ + body@);
        s
    } else {
        body
    }
}

/// Normalization leaves no empty part, no dot and no pair of dots behind.
pub proof fn law_normalized_is_clean(parts: Seq<Seq<char>>)
    ensures
        forall|i: int|
            0 <= i < normalized(parts).len() ==> (#[trigger] normalized(parts)[i]).len() > 0
                && normalized(parts)[i] != "."@ && normalized(parts)[i] != ".."@,
    decreases parts.len(),
{
    if parts.len() > 0 {
        law_normalized_is_clean(parts.drop_last());
        let before = normalized(parts.drop_last());
        let all = normalized(parts);
        assert forall|i: int| 0 <= i < all.len() implies (#[trigger] all[i]).len() > 0 && all[i]
            != "."@ && all[i] != ".."@ by {
            if i < before.len() {
                assert(before[i].len() > 0);
                assert(all[i] == before[i]);
            }
        }
    }
}

/// A file that stands under the path as written is found there, whatever the
/// directory; a path that stands under neither name is not found.
pub proof fn law_path_as_written_wins<V>(
    m: Map<Seq<char>, V>,
    path: Seq<char>,
    from_dir: Seq<char>,
)
    ensures
        m.contains_key(path) ==> resolved(m, path, from_dir) == Some(path),
        resolved(m, path, from_dir) matches Some(key) ==> m.contains_key(key) && (key == path || key
            == beneath(path, from_dir)),
        resolved(m, path, from_dir) is None ==> !m.contains_key(path) && !m.contains_key(
            beneath(path, from_dir),
        ),
{
}

} // verus!
