//! Where the parts of a repository are, how one is found, and what a new one
//! starts with.

use vstd::prelude::*;

verus! {

/// The directory that holds what is known of a repository.
pub const DOT_DIR: &'static str = ".pijul";

/// The directory of the database.
pub const PRISTINE_DIR: &'static str = "pristine";

/// The directory of the changes.
pub const CHANGES_DIR: &'static str = "changes";

/// The configuration file.
pub const CONFIG_FILE: &'static str = "config";

/// The file of the database.
pub const DB_FILE: &'static str = "db";

/// The file that lists what is not tracked.
pub const IGNORE_FILE: &'static str = ".ignore";

/// A path: whether it starts at the root, and its components, as bytes.
pub struct DirPath {
    pub rooted: bool,
    pub parts: Vec<Vec<u8>>,
}

/// What a path says.
#[verifier::ext_equal]
pub struct PathView {
    pub rooted: bool,
    pub parts: Seq<Seq<u8>>,
}

impl View for DirPath {
    type V = PathView;

    open spec fn view(&self) -> PathView {
        PathView { rooted: self.rooted, parts: self.parts@.map_values(|p: Vec<u8>| p@) }
    }
}

/// A name as a component of a path.
pub open spec fn component(name: &str) -> Seq<u8> {
    vstd::utf8::encode_utf8(name@)
}

/// The path with a name added to it.
pub open spec fn joined(p: PathView, name: &str) -> PathView {
    PathView { rooted: p.rooted, parts: p.parts.push(component(name)) }
}

/// The path with another one added to it, which replaces it if it starts at
/// the root.
pub open spec fn extended(p: PathView, q: PathView) -> PathView {
    if q.rooted {
        q
    } else {
        PathView { rooted: p.rooted, parts: p.parts + q.parts }
    }
}

/// The path without its last component, if it has one.
pub open spec fn parent_or_same(p: PathView) -> PathView {
    if p.parts.len() == 0 {
        p
    } else {
        PathView { rooted: p.rooted, parts: p.parts.drop_last() }
    }
}

fn copy_bytes(s: &Vec<u8>) -> (r: Vec<u8>)
    ensures
        r@ == s@,
{
    vstd::slice::slice_to_vec(s.as_slice())
}

fn same_bytes(a: &Vec<u8>, b: &Vec<u8>) -> (r: bool)
    ensures
        r == (a@ == b@),
{
    if a.len() != b.len() {
        return false;
    }
    let mut i: usize = 0;
    while i < a.len()
        invariant
            i <= a.len(),
            a.len() == b.len(),
            forall|j: int| 0 <= j < i ==> a@[j] == b@[j],
        decreases a.len() - i,
    {
        if a[i] != b[i] {
            return false;
        }
        i = i + 1;
    }
    assert(a@ =~= b@);
    true
}

impl DirPath {
    /// The same path.
    pub fn copied(&self) -> (r: DirPath)
        ensures
            r@ == self@,
    {
        let mut parts: Vec<Vec<u8>> = Vec::new();
        let mut i: usize = 0;
        while i < self.parts.len()
            invariant
                i <= self.parts.len(),
                parts.len() == i,
                forall|j: int| 0 <= j < i ==> (#[trigger] parts@[j])@ == self.parts@[j]@,
            decreases self.parts.len() - i,
        {
            parts.push(copy_bytes(&self.parts[i]));
            i = i + 1;
        }
        let r = DirPath { rooted: self.rooted, parts };
        assert(r@.parts =~= self@.parts);
        r
    }

    /// Whether two paths are the same.
    pub fn same(&self, other: &DirPath) -> (r: bool)
        ensures
            r == (self@ == other@),
    {
        if self.rooted != other.rooted || self.parts.len() != other.parts.len() {
            assert(self@.parts.len() == self.parts@.len());
            assert(other@.parts.len() == other.parts@.len());
            return false;
        }
        let mut i: usize = 0;
        while i < self.parts.len()
            invariant
                i <= self.parts.len(),
                self.parts.len() == other.parts.len(),
                forall|j: int| 0 <= j < i ==> #[trigger] self.parts@[j]@ == other.parts@[j]@,
            decreases self.parts.len() - i,
        {
            if !same_bytes(&self.parts[i], &other.parts[i]) {
                assert(self@.parts[i as int] != other@.parts[i as int]);
                return false;
            }
            i = i + 1;
        }
        assert(self@.parts =~= other@.parts);
        true
    }

    /// Adds a name to the path.
    pub fn push_name(&mut self, name: &str)
        ensures
            final(self)@ == joined(old(self)@, name),
    {
        let bytes = vstd::slice::slice_to_vec(name.as_bytes());
        self.parts.push(bytes);
        assert(self@.parts =~= old(self)@.parts.push(component(name)));
    }

    /// The path with a name added to it.
    pub fn join_name(&self, name: &str) -> (r: DirPath)
        ensures
            r@ == joined(self@, name),
    {
        let mut r = self.copied();
        r.push_name(name);
        r
    }

    /// Adds a path to the path.
    pub fn push(&mut self, other: &DirPath)
        ensures
            final(self)@ == extended(old(self)@, other@),
    {
        let mut more = other.copied();
        if more.rooted {
            *self = more;
        } else {
            let ghost added = more.parts@;
            self.parts.append(&mut more.parts);
            assert(self@.parts =~= old(self)@.parts + other@.parts) by {
                assert(other@.parts =~= added.map_values(|p: Vec<u8>| p@));
            }
        }
    }

    /// Takes the last component away. Gives whether there was one.
    pub fn pop(&mut self) -> (r: bool)
        ensures
            r == (old(self)@.parts.len() > 0),
            final(self)@ == parent_or_same(old(self)@),
    {
        let r = self.parts.pop();
        assert(self@.parts =~= parent_or_same(old(self)@).parts);
        r.is_some()
    }
}

/// Why a repository could not be found or made.
pub enum RepositoryError {
    /// No Pijul repository found.
    NotFound,
    /// Already in a repository.
    AlreadyInRepository,
    /// The configuration file is no text.
    ConfigNotUtf8,
    /// The text of the configuration file is no configuration.
    BadConfig,
}

impl RepositoryError {
    /// What is said of the error, unless it is for the text's own error to say.
    /// The path of the configuration file is given between quotes.
    pub fn message(&self, quoted_path: &str) -> (r: Option<String>)
        ensures
            text_view(r) == match self {
                RepositoryError::NotFound => Some("No Pijul repository found"@),
                RepositoryError::AlreadyInRepository => Some("Already in a repository"@),
                RepositoryError::ConfigNotUtf8 => None,
                RepositoryError::BadConfig => Some(
                    "Could not read configuration file at "@ + quoted_path@,
                ),
            },
    {
        match self {
            RepositoryError::NotFound => Some("No Pijul repository found".to_owned()),
            RepositoryError::AlreadyInRepository => Some("Already in a repository".to_owned()),
            RepositoryError::ConfigNotUtf8 => None,
            RepositoryError::BadConfig => Some(bad_config_message(quoted_path)),
        }
    }
}

/// What is said of a configuration file that cannot be understood, where its
/// path is given between quotes.
pub fn bad_config_message(quoted_path: &str) -> (r: String)
    ensures
        r@ == "Could not read configuration file at "@ + quoted_path@,
{
    "Could not read configuration file at ".to_owned().concat(quoted_path)
}

/// What is said when a repository was made.
pub fn created_message(path: &str) -> (r: String)
    ensures
        r@ == "Repository created at "@ + path@,
{
    "Repository created at ".to_owned().concat(path)
}

/// The place where a repository is looked for after `c`: in the directory
/// above the one that `c` is in.
pub open spec fn next_candidate(c: PathView) -> Option<PathView> {
    let dir = parent_or_same(c);
    if dir.parts.len() > 0 {
        Some(joined(parent_or_same(dir), DOT_DIR))
    } else {
        None
    }
}

/// The place where a repository is looked for after `k` others, from `cur` on,
/// if there is one.
pub open spec fn candidate(cur: PathView, dot_dir: PathView, k: nat) -> Option<PathView>
    decreases k,
{
    if k == 0 {
        Some(extended(cur, dot_dir))
    } else {
        match candidate(cur, dot_dir, (k - 1) as nat) {
            Some(c) => next_candidate(c),
            None => None,
        }
    }
}

/// A search for a repository.
pub struct RootSearch {
    /// The place to look at.
    pub cur: DirPath,
}

impl RootSearch {
    /// Starts a search in a directory.
    pub fn new(cur: &DirPath, dot_dir: &DirPath) -> (r: RootSearch)
        ensures
            candidate(cur@, dot_dir@, 0) == Some(r.cur@),
    {
        let mut cur = cur.copied();
        cur.push(dot_dir);
        RootSearch { cur }
    }

    /// Goes on to the next place, as there is nothing at the current one. Gives
    /// whether there is another one.
    pub fn reject(&mut self) -> (r: bool)
        ensures
            match next_candidate(old(self).cur@) {
                Some(c) => r && final(self).cur@ == c,
                None => !r && final(self).cur@ == parent_or_same(old(self).cur@),
            },
    {
        self.cur.pop();
        if self.cur.pop() {
            self.cur.push_name(DOT_DIR);
            true
        } else {
            false
        }
    }
}

/// Whether the path is one of those.
pub open spec fn among(p: PathView, paths: Seq<DirPath>) -> bool {
    exists|i: int| 0 <= i < paths.len() && (#[trigger] paths[i])@ == p
}

fn is_among(p: &DirPath, paths: &Vec<DirPath>) -> (r: bool)
    ensures
        r == among(p@, paths@),
{
    let mut i: usize = 0;
    while i < paths.len()
        invariant
            i <= paths.len(),
            forall|j: int| 0 <= j < i ==> (#[trigger] paths@[j])@ != p@,
        decreases paths.len() - i,
    {
        if paths[i].same(p) {
            assert(paths@[i as int]@ == p@);
            return true;
        }
        i = i + 1;
    }
    false
}

/// Whether nothing is at the first `k` places where a repository is looked for.
pub open spec fn missing_before(
    cur: PathView,
    dot_dir: PathView,
    existing: Seq<DirPath>,
    k: nat,
) -> bool {
    forall|j: nat|
        j < k ==> (#[trigger] candidate(cur, dot_dir, j) matches Some(c) && !among(c, existing))
}

/// The places where a repository is looked for: `dot_dir` in the directory
/// itself, and then the usual name in each directory above it, from the closest
/// one to the root, and nowhere else.
pub proof fn law_candidates(cur: PathView, name: Seq<u8>, k: nat)
    ensures
        ({
            let dot_dir = PathView { rooted: false, parts: seq![name] };
            let n = cur.parts.len();
            &&& candidate(cur, dot_dir, 0) == Some(
                PathView { rooted: cur.rooted, parts: cur.parts.push(name) },
            )
            &&& 1 <= k <= n ==> candidate(cur, dot_dir, k) == Some(
                joined(PathView { rooted: cur.rooted, parts: cur.parts.take(n - k) }, DOT_DIR),
            )
            &&& k > n ==> candidate(cur, dot_dir, k) is None
        }),
    decreases k,
{
    let dot_dir = PathView { rooted: false, parts: seq![name] };
    let n = cur.parts.len();
    assert(cur.parts + seq![name] =~= cur.parts.push(name));
    if k > 0 {
        law_candidates(cur, name, (k - 1) as nat);
        if k == 1 {
            assert(cur.parts.push(name).drop_last() =~= cur.parts);
            if n >= 1 {
                assert(cur.parts.drop_last() =~= cur.parts.take(n - 1));
            }
        } else if k <= n + 1 {
            let before = cur.parts.take(n - (k - 1));
            assert(before.push(component(DOT_DIR)).drop_last() =~= before);
            if k <= n {
                assert(before.drop_last() =~= cur.parts.take(n - k));
            }
        }
    }
}

/// A repository: where its parts are, and its configuration.
pub struct Repository {
    /// The file of the database.
    pub pristine: DirPath,
    /// The directory that the changes are read from, and how many of them are
    /// kept open.
    pub changes: (DirPath, usize),
    /// The directory of the tracked files.
    pub working_copy: DirPath,
    /// The text of the configuration file, unless it could not be read: the
    /// configuration is then the default one.
    pub config: Option<String>,
    /// The directory of the repository.
    pub path: DirPath,
    /// The directory of the changes.
    pub changes_dir: DirPath,
}

/// Whether the repository in the directory `path`, whose data are in
/// `dot_dir`, has its parts where they belong.
pub open spec fn laid_out(
    r: Repository,
    path: PathView,
    dot_dir: PathView,
    max_files: usize,
) -> bool {
    &&& r.pristine@ == joined(joined(dot_dir, PRISTINE_DIR), DB_FILE)
    &&& r.changes.0@ == path
    &&& r.changes.1 == max_files
    &&& r.working_copy@ == path
    &&& r.path@ == path
    &&& r.changes_dir@ == joined(dot_dir, CHANGES_DIR)
}

/// `std::string::String::from_utf8`: the text with these bytes, if they are
/// UTF-8.
#[verifier::external_body]
fn from_utf8(bytes: Vec<u8>) -> (r: Option<String>)
    ensures
        r is Some == vstd::utf8::valid_utf8(bytes@),
        r matches Some(s) ==> s@ == vstd::utf8::decode_utf8(bytes@),
{
    String::from_utf8(bytes).ok()
}

/// What is known of the configuration, from what reading its file gave.
pub open spec fn config_text(read: Option<Seq<u8>>) -> Result<Option<Seq<char>>, RepositoryError> {
    match read {
        None => Ok(None),
        Some(bytes) => if vstd::utf8::valid_utf8(bytes) {
            Ok(Some(vstd::utf8::decode_utf8(bytes)))
        } else {
            Err(RepositoryError::ConfigNotUtf8)
        },
    }
}

/// The view of bytes that may be missing.
pub open spec fn bytes_view(s: Option<Vec<u8>>) -> Option<Seq<u8>> {
    match s {
        Some(b) => Some(b@),
        None => None,
    }
}

/// The view of a text that may be missing.
pub open spec fn text_view(s: Option<String>) -> Option<Seq<char>> {
    match s {
        Some(t) => Some(t@),
        None => None,
    }
}

impl Repository {
    /// Looks for a repository, in a directory and in those above it, where the
    /// paths in `existing` are those at which there is something.
    fn find_root_(cur: &DirPath, dot_dir: &DirPath, existing: &Vec<DirPath>) -> (r: Result<
        DirPath,
        RepositoryError,
    >)
        ensures
            match r {
                Ok(p) => among(p@, existing@) && exists|k: nat| #[trigger]
                    candidate(cur@, dot_dir@, k) == Some(p@) && missing_before(
                        cur@,
                        dot_dir@,
                        existing@,
                        k,
                    ),
                Err(e) => e == RepositoryError::NotFound && exists|k: nat| #[trigger]
                    candidate(cur@, dot_dir@, k) is None && missing_before(
                        cur@,
                        dot_dir@,
                        existing@,
                        k,
                    ),
            },
    {
        let mut search = RootSearch::new(cur, dot_dir);
        let ghost mut k: nat = 0;
        loop
            invariant
                candidate(cur@, dot_dir@, k) == Some(search.cur@),
                missing_before(cur@, dot_dir@, existing@, k),
            decreases search.cur@.parts.len(),
        {
            if is_among(&search.cur, existing) {
                return Ok(search.cur);
            }
            let ghost c = search.cur@;
            let more = search.reject();
            proof {
                assert(candidate(cur@, dot_dir@, k + 1) == next_candidate(c));
                k = k + 1;
            }
            if !more {
                return Err(RepositoryError::NotFound);
            }
        }
    }

    /// The file to read the configuration from, for a repository whose data are
    /// in `dot_dir`.
    pub fn config_path(dot_dir: &DirPath) -> (r: DirPath)
        ensures
            r@ == joined(dot_dir@, CONFIG_FILE),
    {
        dot_dir.join_name(CONFIG_FILE)
    }

    /// The repository whose data are in `dot_dir`, from what reading its
    /// configuration file gave, if it could be read.
    pub fn at(dot_dir: &DirPath, config: Option<Vec<u8>>, max_files: usize) -> (r: Result<
        Repository,
        RepositoryError,
    >)
        ensures
            match config_text(bytes_view(config)) {
                Ok(text) => {
                    &&& r matches Ok(repo)
                    &&& laid_out(repo, parent_or_same(dot_dir@), dot_dir@, max_files)
                    &&& text_view(repo.config) == text
                },
                Err(err) => r matches Err(e) && e == err,
            },
    {
        let text: Option<String> = match config {
            Some(bytes) => match from_utf8(bytes) {
                Some(text) => Some(text),
                None => {
                    return Err(RepositoryError::ConfigNotUtf8);
                },
            },
            None => None,
        };
        let mut path = dot_dir.copied();
        path.pop();
        Ok(
            Repository {
                pristine: dot_dir.join_name(PRISTINE_DIR).join_name(DB_FILE),
                changes: (path.copied(), max_files),
                working_copy: path.copied(),
                config: text,
                path,
                changes_dir: dot_dir.join_name(CHANGES_DIR),
            },
        )
    }

    /// Finds the repository that a directory is in, where the paths in
    /// `existing` are those at which there is something, and `config` is what
    /// reading its configuration file gave.
    pub fn find_root(
        cur: &DirPath,
        existing: &Vec<DirPath>,
        config: Option<Vec<u8>>,
        max_files: usize,
    ) -> (r: Result<Repository, RepositoryError>)
        ensures
            found(
                cur@,
                usual_dot_dir(),
                existing@,
                bytes_view(config),
                max_files,
                r,
            ),
    {
        let mut dot_dir = DirPath { rooted: false, parts: Vec::new() };
        dot_dir.push_name(DOT_DIR);
        assert(dot_dir@ =~= usual_dot_dir());
        Repository::find_root_with_dot_dir(cur, &dot_dir, existing, config, max_files)
    }

    /// The same, where the data are looked for in `dot_dir` first.
    pub fn find_root_with_dot_dir(
        cur: &DirPath,
        dot_dir: &DirPath,
        existing: &Vec<DirPath>,
        config: Option<Vec<u8>>,
        max_files: usize,
    ) -> (r: Result<Repository, RepositoryError>)
        ensures
            found(cur@, dot_dir@, existing@, bytes_view(config), max_files, r),
    {
        match Repository::find_root_(cur, dot_dir, existing) {
            Ok(root) => Repository::at(&root, config, max_files),
            Err(e) => Err(e),
        }
    }
}

/// What a repository is opened as, with its configuration, where `parsed` is
/// what its text was read as, if it could be. The default stands for a file that
/// could not be read, and never for a text that is no configuration.
pub open spec fn opened_with<C>(
    repo: Repository,
    parsed: Option<C>,
    default: C,
    r: Result<(Repository, C), RepositoryError>,
) -> bool {
    match (repo.config, parsed) {
        (None, _) => r == Ok::<(Repository, C), RepositoryError>((repo, default)),
        (Some(_), Some(c)) => r == Ok::<(Repository, C), RepositoryError>((repo, c)),
        (Some(_), None) => r matches Err(e) && e == RepositoryError::BadConfig,
    }
}

impl Repository {
    /// The repository with its configuration, where `parsed` is what the text
    /// of its configuration file was read as, if it could be.
    pub fn configured<C>(self, parsed: Option<C>, default: C) -> (r: Result<
        (Repository, C),
        RepositoryError,
    >)
        ensures
            opened_with(self, parsed, default, r),
    {
        match &self.config {
            None => Ok((self, default)),
            Some(_) => match parsed {
                Some(c) => Ok((self, c)),
                None => Err(RepositoryError::BadConfig),
            },
        }
    }
}

/// What looking for a repository gives, if it ends after `k` places.
pub open spec fn found_after(
    cur: PathView,
    dot_dir: PathView,
    existing: Seq<DirPath>,
    config: Option<Seq<u8>>,
    max_files: usize,
    r: Result<Repository, RepositoryError>,
    k: nat,
) -> bool {
    &&& missing_before(cur, dot_dir, existing, k)
    &&& match candidate(cur, dot_dir, k) {
        None => r matches Err(e) && e == RepositoryError::NotFound,
        Some(root) => {
            &&& among(root, existing)
            &&& match config_text(config) {
                Ok(text) => {
                    &&& r matches Ok(repo)
                    &&& laid_out(repo, parent_or_same(root), root, max_files)
                    &&& text_view(repo.config) == text
                },
                Err(err) => r matches Err(e) && e == err,
            }
        },
    }
}

/// What looking for a repository gives.
pub open spec fn found(
    cur: PathView,
    dot_dir: PathView,
    existing: Seq<DirPath>,
    config: Option<Seq<u8>>,
    max_files: usize,
    r: Result<Repository, RepositoryError>,
) -> bool {
    exists|k: nat|
        #![trigger candidate(cur, dot_dir, k)]
        found_after(cur, dot_dir, existing, config, max_files, r, k)
}

/// The first place at which there is something is the only one that a search
/// can end at.
pub proof fn law_search_is_exact(
    cur: PathView,
    dot_dir: PathView,
    existing: Seq<DirPath>,
    j: nat,
    k: nat,
)
    requires
        missing_before(cur, dot_dir, existing, j),
        missing_before(cur, dot_dir, existing, k),
        candidate(cur, dot_dir, j) matches Some(c) ==> among(c, existing),
        candidate(cur, dot_dir, k) matches Some(c) ==> among(c, existing),
    ensures
        j == k,
{
    if j < k {
        assert(candidate(cur, dot_dir, j) is Some);
    } else if k < j {
        assert(candidate(cur, dot_dir, k) is Some);
    }
}

/// The lines, each with its end.
pub open spec fn lines(entries: Seq<Seq<char>>) -> Seq<char>
    decreases entries.len(),
{
    if entries.len() == 0 {
        Seq::empty()
    } else {
        lines(entries.drop_last()) + entries.last() + "\n"@
    }
}

/// The texts of strings.
pub open spec fn texts(s: Seq<String>) -> Seq<Seq<char>> {
    s.map_values(|t: String| t@)
}

/// The code of a character, or that of the lower case for an ASCII letter.
pub open spec fn lower_code(c: char) -> u32 {
    if 65 <= c as u32 <= 90 {
        (c as u32 + 32) as u32
    } else {
        c as u32
    }
}

/// Whether two texts are the same but for the case of ASCII letters.
pub open spec fn same_ignoring_case(a: Seq<char>, b: Seq<char>) -> bool {
    &&& a.len() == b.len()
    &&& forall|i: int| 0 <= i < a.len() ==> lower_code(#[trigger] a[i]) == lower_code(b[i])
}

/// What a project of one of the known kinds does not track.
pub open spec fn known_kind(kind: Seq<char>) -> Seq<Seq<char>> {
    if same_ignoring_case(kind, "rust"@) {
        seq!["/target"@, "Cargo.lock"@]
    } else if same_ignoring_case(kind, "node"@) || same_ignoring_case(kind, "nodejs"@) {
        seq!["node_modules"@]
    } else if same_ignoring_case(kind, "lean"@) {
        seq!["/build"@]
    } else {
        Seq::empty()
    }
}

/// The kinds that the user has configured, each with what it does not track.
pub struct UserKind {
    pub name: String,
    pub entries: Vec<String>,
}

/// Whether `kinds` has an entry for `kind`, and what the first one says.
pub open spec fn user_kind(kinds: Seq<UserKind>, kind: Seq<char>) -> Option<Seq<Seq<char>>>
    decreases kinds.len(),
{
    if kinds.len() == 0 {
        None
    } else if kinds[0].name@ == kind {
        Some(texts(kinds[0].entries@))
    } else {
        user_kind(kinds.skip(1), kind)
    }
}

/// What a project of the given kind does not track: what the user has
/// configured for it, or else what is known of it.
pub open spec fn specific_entries(kind: Option<Seq<char>>, kinds: Seq<UserKind>) -> Seq<
    Seq<char>,
> {
    match kind {
        None => Seq::empty(),
        Some(kind) => match user_kind(kinds, kind) {
            Some(entries) => entries,
            None => known_kind(kind),
        },
    }
}

/// The view of a text that may be missing.
pub open spec fn str_view(s: Option<&str>) -> Option<Seq<char>> {
    match s {
        Some(t) => Some(t@),
        None => None,
    }
}

/// What the `.ignore` file of a new repository says.
pub open spec fn ignore_text(kind: Option<Seq<char>>, kinds: Seq<UserKind>) -> Seq<char> {
    lines(seq![".git"@, ".DS_Store"@]) + lines(specific_entries(kind, kinds))
}

fn code(c: char) -> (r: u32)
    ensures
        r == lower_code(c),
{
    let n: u32 = c as u32;
    if 65 <= n && n <= 90 {
        n + 32
    } else {
        n
    }
}

/// Whether two texts are the same but for the case of ASCII letters.
fn is_same_ignoring_case(a: &str, b: &str) -> (r: bool)
    ensures
        r == same_ignoring_case(a@, b@),
{
    let n: usize = a.unicode_len();
    if n != b.unicode_len() {
        return false;
    }
    let mut i: usize = 0;
    while i < n
        invariant
            i <= n,
            n == a@.len(),
            n == b@.len(),
            forall|j: int| 0 <= j < i ==> lower_code(#[trigger] a@[j]) == lower_code(b@[j]),
        decreases n - i,
    {
        if code(a.get_char(i)) != code(b.get_char(i)) {
            return false;
        }
        i = i + 1;
    }
    true
}

fn add_line(text: &mut String, line: &str)
    ensures
        final(text)@ == old(text)@ + (line@ + "\n"@),
{
    text.append(line);
    text.append("\n");
    assert(text@ =~= old(text)@ + (line@ + "\n"@));
}

/// The entries that the user has configured for a kind, if any.
fn find_user_kind<'a>(kinds: &'a Vec<UserKind>, kind: &str) -> (r: Option<&'a Vec<String>>)
    ensures
        match r {
            Some(entries) => user_kind(kinds@, kind@) == Some(texts(entries@)),
            None => user_kind(kinds@, kind@) is None,
        },
{
    let wanted = kind.to_owned();
    let mut i: usize = 0;
    assert(kinds@.skip(0) =~= kinds@);
    while i < kinds.len()
        invariant
            i <= kinds.len(),
            wanted@ == kind@,
            user_kind(kinds@, kind@) == user_kind(kinds@.skip(i as int), kind@),
        decreases kinds.len() - i,
    {
        assert(kinds@.skip(i as int).skip(1) =~= kinds@.skip(i + 1));
        if kinds[i].name == wanted {
            return Some(&kinds[i].entries);
        }
        i = i + 1;
    }
    None
}

/// The lines of the `.ignore` file that are for the given kind of project.
fn ignore_specific(text: &mut String, kind: Option<&str>, kinds: &Vec<UserKind>)
    ensures
        final(text)@ == old(text)@ + lines(specific_entries(str_view(kind), kinds@)),
{
    let ghost before = text@;
    if let Some(kind) = kind {
        if let Some(entries) = find_user_kind(kinds, kind) {
            let mut i: usize = 0;
            assert(texts(entries@).take(0) =~= Seq::empty());
            assert(text@ =~= before + lines(texts(entries@).take(0)));
            while i < entries.len()
                invariant
                    i <= entries.len(),
                    text@ == before + lines(texts(entries@).take(i as int)),
                decreases entries.len() - i,
            {
                proof {
                    let t = texts(entries@).take(i + 1);
                    assert(t.drop_last() =~= texts(entries@).take(i as int));
                    assert(t.last() == entries@[i as int]@);
                }
                add_line(text, entries[i].as_str());
                i = i + 1;
                assert(text@ =~= before + lines(texts(entries@).take(i as int)));
            }
            assert(texts(entries@).take(i as int) =~= texts(entries@));
            return;
        }
        proof {
            reveal_with_fuel(lines, 3);
            assert(seq!["/target"@, "Cargo.lock"@].drop_last() =~= seq!["/target"@]);
            assert(seq!["/target"@].drop_last() =~= Seq::empty());
            assert(seq!["node_modules"@].drop_last() =~= Seq::empty());
            assert(seq!["/build"@].drop_last() =~= Seq::empty());
        }
        if is_same_ignoring_case(kind, "rust") {
            add_line(text, "/target");
            add_line(text, "Cargo.lock");
        } else if is_same_ignoring_case(kind, "node") || is_same_ignoring_case(kind, "nodejs") {
            add_line(text, "node_modules");
        } else if is_same_ignoring_case(kind, "lean") {
            add_line(text, "/build");
        }
        assert(text@ =~= before + lines(known_kind(kind@)));
    } else {
        assert(text@ =~= before + lines(Seq::empty()));
    }
}

/// What the `.ignore` file of a new repository says, unless there is one
/// already, which is kept.
pub fn init_dot_ignore(exists: bool, kind: Option<&str>, kinds: &Vec<UserKind>) -> (r: Option<
    String,
>)
    ensures
        match r {
            Some(text) => !exists && text@ == ignore_text(str_view(kind), kinds@),
            None => exists,
        },
{
    if exists {
        return None;
    }
    let mut text = String::new();
    add_line(&mut text, ".git");
    add_line(&mut text, ".DS_Store");
    proof {
        reveal_with_fuel(lines, 3);
        assert(seq![".git"@, ".DS_Store"@].drop_last() =~= seq![".git"@]);
        assert(seq![".git"@].drop_last() =~= Seq::empty());
        assert(text@ =~= lines(seq![".git"@, ".DS_Store"@]));
    }
    ignore_specific(&mut text, kind, kinds);
    Some(text)
}

/// A text between quotes, with its special characters escaped.
pub uninterp spec fn quoted(s: Seq<char>) -> Seq<char>;

/// `std::fmt::Debug` for a text: the text between quotes, escaped. It depends
/// on the text alone.
#[verifier::external_body]
fn quote(s: &str) -> (r: String)
    ensures
        r@ == quoted(s@),
{
    format!("{:?}", s)
}

/// The line of a configuration file that gives the default remote.
pub open spec fn remote_line(quoted_remote: Seq<char>) -> Seq<char> {
    "default_remote = "@ + quoted_remote + "\n"@
}

/// What the configuration file of a new repository says, where the default
/// remote is given between quotes.
pub open spec fn default_config(quoted_remote: Option<Seq<char>>) -> Seq<char> {
    match quoted_remote {
        Some(q) => remote_line(q) + "[hooks]\nrecord = []\n"@,
        None => "[hooks]\nrecord = []\n"@,
    }
}

/// What the configuration file of a new repository says, where the default
/// remote is given between quotes.
pub fn config_with_remote(quoted_remote: Option<&str>) -> (r: String)
    ensures
        r@ == default_config(str_view(quoted_remote)),
{
    let mut text = String::new();
    if let Some(q) = quoted_remote {
        text.append("default_remote = ");
        text.append(q);
        text.append("\n");
        assert(text@ =~= remote_line(q@));
    }
    text.append("[hooks]\nrecord = []\n");
    assert(text@ =~= default_config(str_view(quoted_remote)));
    text
}

/// What the configuration file of a new repository says, unless there is one
/// already, which is kept.
pub fn init_default_config(exists: bool, remote: Option<&str>) -> (r: Option<String>)
    ensures
        match r {
            Some(text) => !exists && text@ == default_config(
                match remote {
                    Some(s) => Some(quoted(s@)),
                    None => None,
                },
            ),
            None => exists,
        },
{
    if exists {
        return None;
    }
    match remote {
        Some(s) => Some(config_with_remote(Some(quote(s).as_str()))),
        None => Some(config_with_remote(None)),
    }
}

/// What is there before a repository is made.
pub struct Existing {
    /// Whether there is a directory of the database.
    pub pristine: bool,
    /// Whether there is an `.ignore` file.
    pub ignore: bool,
    /// Whether there is a configuration file.
    pub config: bool,
}

/// What making a repository takes.
pub struct InitPlan {
    /// The directory to make, with those above it.
    pub create: DirPath,
    /// The `.ignore` file, and what to write there, unless it is there.
    pub ignore: (DirPath, Option<String>),
    /// The configuration file, and what to write there, unless it is there.
    pub config: (DirPath, Option<String>),
    /// The repository.
    pub repository: Repository,
}

/// The directory with the data of a repository in the directory `path`.
pub open spec fn data_dir(path: PathView) -> PathView {
    joined(path, DOT_DIR)
}

impl Repository {
    /// The directory whose existence says that there is a repository.
    pub fn pristine_dir(path: &DirPath) -> (r: DirPath)
        ensures
            r@ == joined(data_dir(path@), PRISTINE_DIR),
    {
        path.join_name(DOT_DIR).join_name(PRISTINE_DIR)
    }

    /// Makes a repository in a directory, for a project of the given kind and
    /// with a default remote, unless there is one already.
    pub fn init(
        path: &DirPath,
        existing: &Existing,
        kind: Option<&str>,
        kinds: &Vec<UserKind>,
        remote: Option<&str>,
        max_files: usize,
    ) -> (r: Result<InitPlan, RepositoryError>)
        ensures
            if existing.pristine {
                r matches Err(e) && e == RepositoryError::AlreadyInRepository
            } else {
                &&& r matches Ok(plan)
                &&& plan.create@ == joined(data_dir(path@), PRISTINE_DIR)
                &&& plan.ignore.0@ == joined(path@, IGNORE_FILE)
                &&& text_view(plan.ignore.1) == if existing.ignore {
                    None
                } else {
                    Some(ignore_text(str_view(kind), kinds@))
                }
                &&& plan.config.0@ == joined(data_dir(path@), CONFIG_FILE)
                &&& text_view(plan.config.1) == if existing.config {
                    None
                } else {
                    Some(
                        default_config(
                            match remote {
                                Some(s) => Some(quoted(s@)),
                                None => None,
                            },
                        ),
                    )
                }
                &&& laid_out(plan.repository, path@, data_dir(path@), max_files)
                &&& plan.repository.config is None
            },
    {
        if existing.pristine {
            return Err(RepositoryError::AlreadyInRepository);
        }
        let dot_dir = path.join_name(DOT_DIR);
        let create = Repository::pristine_dir(path);
        let ignore = init_dot_ignore(existing.ignore, kind, kinds);
        let config = init_default_config(existing.config, remote);
        let pristine = create.join_name(DB_FILE);
        Ok(
            InitPlan {
                create,
                ignore: (path.join_name(IGNORE_FILE), ignore),
                config: (dot_dir.join_name(CONFIG_FILE), config),
                repository: Repository {
                    pristine,
                    changes: (path.copied(), max_files),
                    working_copy: path.copied(),
                    config: None,
                    path: path.copied(),
                    changes_dir: dot_dir.join_name(CHANGES_DIR),
                },
            },
        )
    }

    /// The file to write the configuration to, and all that it then says, where
    /// `text` is the configuration as a text. Nothing is written if it could not
    /// be made one.
    pub fn update_config(&self, text: Option<String>) -> (r: Option<(DirPath, String)>)
        ensures
            match text {
                Some(t) => r matches Some((file, written)) && file@ == joined(
                    data_dir(self.path@),
                    CONFIG_FILE,
                ) && written@ == t@,
                None => r is None,
            },
    {
        match text {
            Some(text) => Some((self.path.join_name(DOT_DIR).join_name(CONFIG_FILE), text)),
            None => None,
        }
    }
}

/// The directory `below` the directory `path`.
pub open spec fn below(path: PathView, below: Seq<Seq<u8>>) -> PathView {
    PathView { rooted: path.rooted, parts: path.parts + below }
}

/// The usual name of the directory with the data, as a path.
pub open spec fn usual_dot_dir() -> PathView {
    PathView { rooted: false, parts: seq![component(DOT_DIR)] }
}

/// The data of the repository in a directory are among the places that are
/// looked at from every directory below it, after as many others as there are
/// directories in between.
pub proof fn law_data_are_looked_for(path: PathView, dirs: Seq<Seq<u8>>)
    ensures
        candidate(below(path, dirs), usual_dot_dir(), dirs.len()) == Some(data_dir(path)),
{
    let cur = below(path, dirs);
    law_candidates(cur, component(DOT_DIR), dirs.len());
    let n = cur.parts.len();
    assert(cur.parts.take(n - dirs.len()) =~= path.parts);
}

/// A repository that was made in a directory is found from it, and from every
/// directory below it with no other data in between, with its parts where they
/// were made.
pub proof fn law_made_repositories_are_found(
    path: PathView,
    dirs: Seq<Seq<u8>>,
    existing: Seq<DirPath>,
    config: Option<Seq<u8>>,
    max_files: usize,
    r: Result<Repository, RepositoryError>,
)
    requires
        among(data_dir(path), existing),
        missing_before(below(path, dirs), usual_dot_dir(), existing, dirs.len()),
        found(below(path, dirs), usual_dot_dir(), existing, config, max_files, r),
    ensures
        match config_text(config) {
            Ok(text) => {
                &&& r matches Ok(repo)
                &&& laid_out(repo, path, data_dir(path), max_files)
                &&& text_view(repo.config) == text
            },
            Err(err) => r matches Err(e) && e == err,
        },
{
    let cur = below(path, dirs);
    let dot = usual_dot_dir();
    law_data_are_looked_for(path, dirs);
    assert(parent_or_same(data_dir(path)) =~= path);
    let k = choose|k: nat|
        #![trigger candidate(cur, dot, k)]
        found_after(cur, dot, existing, config, max_files, r, k);
    law_search_is_exact(cur, dot, existing, k, dirs.len());
}

/// A configuration that was written to the configuration file of a repository,
/// when it was made or later, is the one that it is then found with.
pub proof fn law_configurations_come_back(
    path: PathView,
    dirs: Seq<Seq<u8>>,
    existing: Seq<DirPath>,
    written: Seq<char>,
    max_files: usize,
    r: Result<Repository, RepositoryError>,
)
    requires
        among(data_dir(path), existing),
        missing_before(below(path, dirs), usual_dot_dir(), existing, dirs.len()),
        found(
            below(path, dirs),
            usual_dot_dir(),
            existing,
            Some(vstd::utf8::encode_utf8(written)),
            max_files,
            r,
        ),
    ensures
        r matches Ok(repo) && laid_out(repo, path, data_dir(path), max_files) && text_view(
            repo.config,
        ) == Some(written),
{
    vstd::utf8::encode_utf8_valid_utf8(written);
    vstd::utf8::encode_utf8_decode_utf8(written);
    law_made_repositories_are_found(
        path,
        dirs,
        existing,
        Some(vstd::utf8::encode_utf8(written)),
        max_files,
        r,
    );
}

/// The default remote that a repository was made with is the one that it is
/// found with, where `parse` is how the text of a configuration is read, and
/// gives the remote between quotes back from the text that was written.
pub proof fn law_remotes_come_back<C>(
    path: PathView,
    dirs: Seq<Seq<u8>>,
    existing: Seq<DirPath>,
    remote: Seq<char>,
    max_files: usize,
    found_repo: Result<Repository, RepositoryError>,
    parse: spec_fn(Seq<char>) -> Option<C>,
    remote_of: spec_fn(C) -> Option<Seq<char>>,
    default: C,
    r: Result<(Repository, C), RepositoryError>,
)
    requires
        among(data_dir(path), existing),
        missing_before(below(path, dirs), usual_dot_dir(), existing, dirs.len()),
        found(
            below(path, dirs),
            usual_dot_dir(),
            existing,
            Some(vstd::utf8::encode_utf8(default_config(Some(quoted(remote))))),
            max_files,
            found_repo,
        ),
        parse(default_config(Some(quoted(remote)))) matches Some(c) && remote_of(c) == Some(remote),
        found_repo matches Ok(repo) ==> opened_with(
            repo,
            match repo.config {
                Some(text) => parse(text@),
                None => None,
            },
            default,
            r,
        ),
    ensures
        r matches Ok((repo, c)) && laid_out(repo, path, data_dir(path), max_files) && remote_of(c)
            == Some(remote),
{
    law_configurations_come_back(
        path,
        dirs,
        existing,
        default_config(Some(quoted(remote))),
        max_files,
        found_repo,
    );
}

/// A name becomes the last component of a path, and nothing else changes, so
/// that its parent is the path again. A path that is added follows component by
/// component, or replaces the other one if it starts at the root.
pub proof fn law_paths(p: PathView, q: PathView, name: &str, i: int)
    ensures
        joined(p, name).rooted == p.rooted,
        joined(p, name).parts.len() == p.parts.len() + 1,
        joined(p, name).parts.last() == vstd::utf8::encode_utf8(name@),
        parent_or_same(joined(p, name)) == p,
        p.parts.len() > 0 ==> parent_or_same(p).parts.len() == p.parts.len() - 1
            && parent_or_same(p).rooted == p.rooted,
        0 <= i < p.parts.len() - 1 ==> parent_or_same(p).parts[i] == p.parts[i],
        p.parts.len() == 0 ==> parent_or_same(p) == p,
        q.rooted ==> extended(p, q) == q,
        !q.rooted ==> {
            &&& extended(p, q).rooted == p.rooted
            &&& extended(p, q).parts.len() == p.parts.len() + q.parts.len()
            &&& 0 <= i < p.parts.len() ==> extended(p, q).parts[i] == p.parts[i]
            &&& 0 <= i < q.parts.len() ==> extended(p, q).parts[p.parts.len() + i] == q.parts[i]
        },
{
    assert(joined(p, name).parts.drop_last() =~= p.parts);
}

/// What a path says is whether it starts at the root, and its components one by
/// one.
pub proof fn law_views_of_paths(p: DirPath, i: int)
    ensures
        p@.rooted == p.rooted,
        p@.parts.len() == p.parts@.len(),
        0 <= i < p.parts@.len() ==> p@.parts[i] == p.parts@[i]@,
{
}

/// Where the parts of a repository are, name by name: the database and the
/// changes below the directory with the data, and the tracked files in the
/// directory of the repository itself.
pub proof fn law_layout(r: Repository, path: PathView, dot_dir: PathView, max_files: usize)
    ensures
        laid_out(r, path, dot_dir, max_files) <==> {
            &&& r.pristine@ == (PathView {
                rooted: dot_dir.rooted,
                parts: dot_dir.parts + seq![
                    vstd::utf8::encode_utf8("pristine"@),
                    vstd::utf8::encode_utf8("db"@),
                ],
            })
            &&& r.changes_dir@ == (PathView {
                rooted: dot_dir.rooted,
                parts: dot_dir.parts + seq![vstd::utf8::encode_utf8("changes"@)],
            })
            &&& r.changes.0@ == path
            &&& r.changes.1 == max_files
            &&& r.working_copy@ == path
            &&& r.path@ == path
        },
        data_dir(path) == (PathView {
            rooted: path.rooted,
            parts: path.parts + seq![vstd::utf8::encode_utf8(".pijul"@)],
        }),
{
    assert(joined(joined(dot_dir, PRISTINE_DIR), DB_FILE).parts =~= dot_dir.parts + seq![
        vstd::utf8::encode_utf8("pristine"@),
        vstd::utf8::encode_utf8("db"@),
    ]);
    assert(joined(dot_dir, CHANGES_DIR).parts =~= dot_dir.parts + seq![
        vstd::utf8::encode_utf8("changes"@),
    ]);
    assert(data_dir(path).parts =~= path.parts + seq![vstd::utf8::encode_utf8(".pijul"@)]);
}

/// The directory `k` steps above the one that the path `first` is in.
pub open spec fn directory_above(first: PathView, k: nat) -> PathView {
    PathView { rooted: first.rooted, parts: first.parts.take(first.parts.len() - 1 - k) }
}

/// The place that is looked at after `k` others, where `first` is the first one:
/// the usual name, in the directory that many steps above.
pub open spec fn place(first: PathView, k: nat) -> PathView {
    if k == 0 {
        first
    } else {
        PathView {
            rooted: first.rooted,
            parts: directory_above(first, k).parts.push(vstd::utf8::encode_utf8(".pijul"@)),
        }
    }
}

/// The places where a repository is looked for, wherever the first one is: there
/// is one in each directory above it, up to the root, and no other.
pub proof fn law_places(cur: PathView, dot_dir: PathView, k: nat)
    requires
        extended(cur, dot_dir).parts.len() > 0,
    ensures
        k < extended(cur, dot_dir).parts.len() ==> candidate(cur, dot_dir, k) == Some(
            place(extended(cur, dot_dir), k),
        ),
        k >= extended(cur, dot_dir).parts.len() ==> candidate(cur, dot_dir, k) is None,
    decreases k,
{
    let first = extended(cur, dot_dir);
    let n = first.parts.len();
    if k > 0 {
        law_places(cur, dot_dir, (k - 1) as nat);
        if k <= n {
            let c = place(first, (k - 1) as nat);
            let dir = parent_or_same(c);
            assert(dir.parts =~= first.parts.take(n - k));
            if k < n {
                assert(parent_or_same(dir).parts =~= directory_above(first, k).parts);
            }
        }
    }
}

/// A search ends at the first place where there is something, and the repository
/// is in the directory of that place.
pub proof fn law_search_results(
    cur: PathView,
    dot_dir: PathView,
    existing: Seq<DirPath>,
    config: Option<Seq<u8>>,
    max_files: usize,
    r: Result<Repository, RepositoryError>,
    k: nat,
)
    requires
        found(cur, dot_dir, existing, config, max_files, r),
        k < extended(cur, dot_dir).parts.len(),
        exists|i: int|
            0 <= i < existing.len() && (#[trigger] existing[i])@ == place(
                extended(cur, dot_dir),
                k,
            ),
        forall|j: nat, i: int|
            j < k && 0 <= i < existing.len() ==> (#[trigger] existing[i])@ != #[trigger] place(
                extended(cur, dot_dir),
                j,
            ),
    ensures
        ({
            let at = place(extended(cur, dot_dir), k);
            let dir = directory_above(extended(cur, dot_dir), k);
            match config_text(config) {
                Ok(text) => {
                    &&& r matches Ok(repo)
                    &&& repo.path@ == dir
                    &&& repo.working_copy@ == dir
                    &&& repo.changes.0@ == dir
                    &&& repo.changes.1 == max_files
                    &&& repo.changes_dir@.parts == at.parts + seq![
                        vstd::utf8::encode_utf8("changes"@),
                    ]
                    &&& repo.pristine@.parts == at.parts + seq![
                        vstd::utf8::encode_utf8("pristine"@),
                        vstd::utf8::encode_utf8("db"@),
                    ]
                    &&& text_view(repo.config) == text
                },
                Err(err) => r matches Err(e) && e == err,
            }
        }),
{
    let first = extended(cur, dot_dir);
    let at = place(first, k);
    law_places(cur, dot_dir, k);
    assert(among(at, existing));
    assert forall|j: nat| j < k implies (#[trigger] candidate(cur, dot_dir, j) matches Some(c)
        && !among(c, existing)) by {
        law_places(cur, dot_dir, j);
        assert(place(first, j) == candidate(cur, dot_dir, j)->0);
    }
    let m = choose|m: nat|
        #![trigger candidate(cur, dot_dir, m)]
        found_after(cur, dot_dir, existing, config, max_files, r, m);
    law_search_is_exact(cur, dot_dir, existing, m, k);
    assert(parent_or_same(at) =~= directory_above(first, k));
    if let Ok(repo) = r {
        law_layout(repo, parent_or_same(at), at, max_files);
    }
}

/// Nothing is found exactly if there is nothing at any of the places that are
/// looked at.
pub proof fn law_nothing_is_found(
    cur: PathView,
    dot_dir: PathView,
    existing: Seq<DirPath>,
    config: Option<Seq<u8>>,
    max_files: usize,
    r: Result<Repository, RepositoryError>,
)
    requires
        found(cur, dot_dir, existing, config, max_files, r),
        extended(cur, dot_dir).parts.len() > 0,
    ensures
        (r matches Err(e) && e == RepositoryError::NotFound) <==> forall|j: nat, i: int|
            j < extended(cur, dot_dir).parts.len() && 0 <= i < existing.len() ==> (
            #[trigger] existing[i])@ != #[trigger] place(extended(cur, dot_dir), j),
{
    let first = extended(cur, dot_dir);
    let m = choose|m: nat|
        #![trigger candidate(cur, dot_dir, m)]
        found_after(cur, dot_dir, existing, config, max_files, r, m);
    law_places(cur, dot_dir, m);
    match candidate(cur, dot_dir, m) {
        None => {
            assert forall|j: nat, i: int|
                j < first.parts.len() && 0 <= i < existing.len() implies (
            #[trigger] existing[i])@ != #[trigger] place(first, j) by {
                law_places(cur, dot_dir, j);
                assert(candidate(cur, dot_dir, j) is Some);
                assert(!among(candidate(cur, dot_dir, j)->0, existing));
            }
        },
        Some(c) => {
            let i = choose|i: int| 0 <= i < existing.len() && (#[trigger] existing[i])@ == c;
            assert(existing[i]@ == place(first, m));
        },
    }
}

/// A configuration file that cannot be read says nothing. One that can be read
/// says the text with its bytes, and is refused if it is no text.
pub proof fn law_texts_of_configurations(read: Option<Seq<u8>>)
    ensures
        read is None ==> config_text(read) == Ok::<Option<Seq<char>>, RepositoryError>(None),
        read matches Some(b) ==> match config_text(read) {
            Ok(text) => text matches Some(t) && vstd::utf8::encode_utf8(t) == b,
            Err(e) => e == RepositoryError::ConfigNotUtf8 && !vstd::utf8::valid_utf8(b),
        },
{
    if let Some(b) = read {
        if vstd::utf8::valid_utf8(b) {
            vstd::utf8::decode_utf8_encode_utf8(b);
        }
    }
}

/// A repository is opened with the configuration that its text was read as, and
/// with the default one only if its file could not be read.
pub proof fn law_configurations<C>(
    repo: Repository,
    parsed: Option<C>,
    default: C,
    r: Result<(Repository, C), RepositoryError>,
)
    requires
        call_ensures(Repository::configured::<C>, (repo, parsed, default), r),
    ensures
        r is Err <==> repo.config is Some && parsed is None,
        r matches Err(e) ==> e == RepositoryError::BadConfig,
        r matches Ok((same, c)) ==> same == repo && (if repo.config is Some {
            parsed == Some(c)
        } else {
            c == default
        }),
{
}

/// Lines stand one after the other, and each of them ends with one end of a
/// line.
pub proof fn law_lines(entries: Seq<Seq<char>>)
    ensures
        lines(entries) == entries.map_values(|e: Seq<char>| e.push('\n')).flatten(),
    decreases entries.len(),
{
    let f = |e: Seq<char>| e.push('\n');
    reveal_strlit("\n");
    assert("\n"@ =~= seq!['\n']);
    if entries.len() == 0 {
        assert(entries.map_values(f) =~= Seq::empty());
        assert(lines(entries) =~= entries.map_values(f).flatten());
    } else {
        let rest = entries.drop_last();
        law_lines(rest);
        assert(entries.map_values(f).drop_last() =~= rest.map_values(f));
        assert(entries.map_values(f).last() == entries.last().push('\n'));
        entries.map_values(f).lemma_flatten_and_flatten_alt_are_equivalent();
        rest.map_values(f).lemma_flatten_and_flatten_alt_are_equivalent();
        assert(lines(entries) =~= rest.map_values(f).flatten() + entries.last().push('\n'));
    }
}

/// Two texts are the same but for the case of ASCII letters exactly if, at each
/// place, they have the same character, or an ASCII letter in either case.
pub proof fn law_same_letters(a: Seq<char>, b: Seq<char>)
    ensures
        same_ignoring_case(a, b) <==> a.len() == b.len() && forall|i: int|
            0 <= i < a.len() ==> {
                let c = #[trigger] a[i];
                let d = b[i];
                ||| c == d
                ||| 'A' <= c <= 'Z' && d as u32 == c as u32 + 32
                ||| 'A' <= d <= 'Z' && c as u32 == d as u32 + 32
            },
{
    if a.len() == b.len() {
        assert forall|i: int| 0 <= i < a.len() implies (lower_code(#[trigger] a[i]) == lower_code(
            b[i],
        ) <==> {
            let c = a[i];
            let d = b[i];
            ||| c == d
            ||| 'A' <= c <= 'Z' && d as u32 == c as u32 + 32
            ||| 'A' <= d <= 'Z' && c as u32 == d as u32 + 32
        }) by {
            lemma_same_letter(a[i], b[i]);
        }
    }
}

proof fn lemma_same_letter(c: char, d: char)
    ensures
        lower_code(c) == lower_code(d) <==> {
            ||| c == d
            ||| 'A' <= c <= 'Z' && d as u32 == c as u32 + 32
            ||| 'A' <= d <= 'Z' && c as u32 == d as u32 + 32
        },
{
    vstd::utf8::char_is_scalar(c);
    vstd::utf8::char_is_scalar(d);
}

/// The texts of strings are those of each string, in order.
pub proof fn law_texts(s: Seq<String>, i: int)
    ensures
        texts(s).len() == s.len(),
        0 <= i < s.len() ==> texts(s)[i] == s[i]@,
{
}

/// The lines for a kind that the user has configured are those of the first
/// entry with exactly that name, wherever it stands among the others.
pub proof fn law_user_kinds(kinds: Seq<UserKind>, kind: Seq<char>, i: int)
    requires
        0 <= i < kinds.len(),
        kinds[i].name@ == kind,
        forall|j: int| 0 <= j < i ==> (#[trigger] kinds[j]).name@ != kind,
    ensures
        user_kind(kinds, kind) == Some(texts(kinds[i].entries@)),
        ignore_text(Some(kind), kinds) == ".git\n.DS_Store\n"@ + kinds[i].entries@.map_values(
            |e: String| e@.push('\n'),
        ).flatten(),
    decreases kinds.len(),
{
    lemma_user_kind(kinds, kind, i);
    lemma_first_lines();
    let entries = kinds[i].entries@;
    law_lines(texts(entries));
    assert(texts(entries).map_values(|e: Seq<char>| e.push('\n')) =~= entries.map_values(
        |e: String| e@.push('\n'),
    ));
}

proof fn lemma_user_kind(kinds: Seq<UserKind>, kind: Seq<char>, i: int)
    requires
        0 <= i < kinds.len(),
        kinds[i].name@ == kind,
        forall|j: int| 0 <= j < i ==> (#[trigger] kinds[j]).name@ != kind,
    ensures
        user_kind(kinds, kind) == Some(texts(kinds[i].entries@)),
    decreases kinds.len(),
{
    if i > 0 {
        assert(kinds[0].name@ != kind);
        let rest = kinds.skip(1);
        assert forall|j: int| 0 <= j < i - 1 implies (#[trigger] rest[j]).name@ != kind by {
            assert(rest[j] == kinds[j + 1]);
        }
        lemma_user_kind(rest, kind, i - 1);
    }
}

proof fn lemma_no_user_kind(kinds: Seq<UserKind>, kind: Seq<char>)
    requires
        forall|j: int| 0 <= j < kinds.len() ==> (#[trigger] kinds[j]).name@ != kind,
    ensures
        user_kind(kinds, kind) is None,
    decreases kinds.len(),
{
    if kinds.len() > 0 {
        assert(kinds[0].name@ != kind);
        let rest = kinds.skip(1);
        assert forall|j: int| 0 <= j < rest.len() implies (#[trigger] rest[j]).name@ != kind by {
            assert(rest[j] == kinds[j + 1]);
        }
        lemma_no_user_kind(rest, kind);
    }
}

/// The lines that every `.ignore` file starts with.
proof fn lemma_first_lines()
    ensures
        lines(seq![".git"@, ".DS_Store"@]) == ".git\n.DS_Store\n"@,
{
    reveal_with_fuel(lines, 3);
    reveal_strlit(".git");
    reveal_strlit(".DS_Store");
    reveal_strlit("\n");
    reveal_strlit(".git\n.DS_Store\n");
    assert(seq![".git"@, ".DS_Store"@].drop_last() =~= seq![".git"@]);
    assert(seq![".git"@].drop_last() =~= Seq::empty());
    assert(lines(seq![".git"@, ".DS_Store"@]) =~= ".git\n.DS_Store\n"@);
}

/// A kind that the user has not configured has the lines that are known for it,
/// in whatever case its ASCII letters are written, and no others. Without a kind
/// there are none either.
pub proof fn law_known_kinds(kinds: Seq<UserKind>, kind: Seq<char>)
    requires
        forall|j: int| 0 <= j < kinds.len() ==> (#[trigger] kinds[j]).name@ != kind,
    ensures
        ({
            let text = ignore_text(Some(kind), kinds);
            &&& same_ignoring_case(kind, "rust"@) ==> text
                == ".git\n.DS_Store\n/target\nCargo.lock\n"@
            &&& same_ignoring_case(kind, "node"@) ==> text == ".git\n.DS_Store\nnode_modules\n"@
            &&& same_ignoring_case(kind, "nodejs"@) ==> text == ".git\n.DS_Store\nnode_modules\n"@
            &&& same_ignoring_case(kind, "lean"@) ==> text == ".git\n.DS_Store\n/build\n"@
            &&& !same_ignoring_case(kind, "rust"@) && !same_ignoring_case(kind, "node"@)
                && !same_ignoring_case(kind, "nodejs"@) && !same_ignoring_case(kind, "lean"@)
                ==> text == ".git\n.DS_Store\n"@
        }),
        ignore_text(None, kinds) == ".git\n.DS_Store\n"@,
{
    lemma_no_user_kind(kinds, kind);
    lemma_first_lines();
    reveal_with_fuel(lines, 3);
    reveal_strlit("\n");
    reveal_strlit("rust");
    reveal_strlit("node");
    reveal_strlit("nodejs");
    reveal_strlit("lean");
    reveal_strlit("/target");
    reveal_strlit("Cargo.lock");
    reveal_strlit("node_modules");
    reveal_strlit("/build");
    reveal_strlit(".git\n.DS_Store\n");
    reveal_strlit(".git\n.DS_Store\n/target\nCargo.lock\n");
    reveal_strlit(".git\n.DS_Store\nnode_modules\n");
    reveal_strlit(".git\n.DS_Store\n/build\n");
    assert(seq!["/target"@, "Cargo.lock"@].drop_last() =~= seq!["/target"@]);
    assert(seq!["/target"@].drop_last() =~= Seq::empty());
    assert(seq!["node_modules"@].drop_last() =~= Seq::empty());
    assert(seq!["/build"@].drop_last() =~= Seq::empty());
    let text = ignore_text(Some(kind), kinds);
    assert(ignore_text(None, kinds) =~= ".git\n.DS_Store\n"@);
    if same_ignoring_case(kind, "rust"@) {
        assert(lower_code(kind[0]) == lower_code('r'));
        assert(text =~= ".git\n.DS_Store\n/target\nCargo.lock\n"@);
    } else if same_ignoring_case(kind, "node"@) || same_ignoring_case(kind, "nodejs"@) {
        assert(lower_code(kind[0]) == lower_code('n'));
        assert(text =~= ".git\n.DS_Store\nnode_modules\n"@);
    } else if same_ignoring_case(kind, "lean"@) {
        assert(text =~= ".git\n.DS_Store\n/build\n"@);
    } else {
        assert(text =~= ".git\n.DS_Store\n"@);
    }
}

/// The configuration file of a new repository names the default remote first, if
/// there is one, and has no hooks.
pub proof fn law_new_configurations(quoted_remote: Seq<char>)
    ensures
        default_config(Some(quoted_remote)) == "default_remote = "@ + quoted_remote
            + "\n[hooks]\nrecord = []\n"@,
        default_config(None) == "[hooks]\nrecord = []\n"@,
{
    reveal_strlit("\n");
    reveal_strlit("[hooks]\nrecord = []\n");
    reveal_strlit("\n[hooks]\nrecord = []\n");
    assert(default_config(Some(quoted_remote)) =~= "default_remote = "@ + quoted_remote
        + "\n[hooks]\nrecord = []\n"@);
}

/// What may be missing says what it says when it is there.
pub proof fn law_what_may_be_missing(text: String, bytes: Vec<u8>, name: &str)
    ensures
        text_view(Some(text)) == Some(text@),
        text_view(None) is None,
        bytes_view(Some(bytes)) == Some(bytes@),
        bytes_view(None) is None,
        str_view(Some(name)) == Some(name@),
        str_view(None) is None,
{
}

/// A path is among others exactly if it is one of them.
pub proof fn law_among(p: PathView, paths: Seq<DirPath>, i: int)
    ensures
        0 <= i < paths.len() && paths[i]@ == p ==> among(p, paths),
        paths.len() == 0 ==> !among(p, paths),
        among(p, paths) ==> exists|j: int| 0 <= j < paths.len() && (#[trigger] paths[j])@ == p,
{
}

/// The files of a repository that are not in its database.
pub proof fn law_files_of_a_repository(path: PathView)
    ensures
        joined(data_dir(path), CONFIG_FILE).parts == path.parts + seq![
            vstd::utf8::encode_utf8(".pijul"@),
            vstd::utf8::encode_utf8("config"@),
        ],
        joined(data_dir(path), PRISTINE_DIR).parts == path.parts + seq![
            vstd::utf8::encode_utf8(".pijul"@),
            vstd::utf8::encode_utf8("pristine"@),
        ],
        joined(path, IGNORE_FILE).parts == path.parts + seq![vstd::utf8::encode_utf8(".ignore"@)],
{
    assert(joined(data_dir(path), CONFIG_FILE).parts =~= path.parts + seq![
        vstd::utf8::encode_utf8(".pijul"@),
        vstd::utf8::encode_utf8("config"@),
    ]);
    assert(joined(data_dir(path), PRISTINE_DIR).parts =~= path.parts + seq![
        vstd::utf8::encode_utf8(".pijul"@),
        vstd::utf8::encode_utf8("pristine"@),
    ]);
    assert(joined(path, IGNORE_FILE).parts =~= path.parts + seq![
        vstd::utf8::encode_utf8(".ignore"@),
    ]);
}

/// The `.ignore` file of a new repository is written exactly if there is none.
/// It has the two lines that each one has, and then those of the first kind with
/// the given name that the user has configured, or else those that are known for
/// it.
pub proof fn law_ignore_files(
    exists: bool,
    kind: Option<&str>,
    kinds: Vec<UserKind>,
    i: int,
    r: Option<String>,
)
    requires
        call_ensures(init_dot_ignore, (exists, kind, &kinds), r),
    ensures
        r is None <==> exists,
        r matches Some(text) ==> match kind {
            None => text@ == ".git\n.DS_Store\n"@,
            Some(k) => {
                &&& 0 <= i < kinds@.len() && kinds@[i].name@ == k@ && (forall|j: int|
                    0 <= j < i ==> (#[trigger] kinds@[j]).name@ != k@) ==> text@
                    == ".git\n.DS_Store\n"@ + kinds@[i].entries@.map_values(
                    |e: String| e@.push('\n'),
                ).flatten()
                &&& (forall|j: int|
                    0 <= j < kinds@.len() ==> (#[trigger] kinds@[j]).name@ != k@) ==> {
                    &&& same_ignoring_case(k@, "rust"@) ==> text@
                        == ".git\n.DS_Store\n/target\nCargo.lock\n"@
                    &&& same_ignoring_case(k@, "node"@) || same_ignoring_case(k@, "nodejs"@)
                        ==> text@ == ".git\n.DS_Store\nnode_modules\n"@
                    &&& same_ignoring_case(k@, "lean"@) ==> text@
                        == ".git\n.DS_Store\n/build\n"@
                    &&& !same_ignoring_case(k@, "rust"@) && !same_ignoring_case(k@, "node"@)
                        && !same_ignoring_case(k@, "nodejs"@) && !same_ignoring_case(k@, "lean"@)
                        ==> text@ == ".git\n.DS_Store\n"@
                }
            },
        },
{
    match kind {
        None => {
            lemma_first_lines();
            assert(lines(Seq::empty()) =~= Seq::empty());
            assert(ignore_text(None, kinds@) =~= ".git\n.DS_Store\n"@);
        },
        Some(k) => {
            if 0 <= i < kinds@.len() && kinds@[i].name@ == k@ && (forall|j: int|
                0 <= j < i ==> (#[trigger] kinds@[j]).name@ != k@) {
                law_user_kinds(kinds@, k@, i);
            }
            if forall|j: int| 0 <= j < kinds@.len() ==> (#[trigger] kinds@[j]).name@ != k@ {
                law_known_kinds(kinds@, k@);
            }
        },
    }
}

/// The configuration of a new repository is written exactly if there is none. It
/// starts with the default remote between quotes, if there is one.
pub proof fn law_configuration_files(
    exists: bool,
    remote: Option<&str>,
    r: Option<String>,
    given: &str,
    text: String,
)
    requires
        call_ensures(init_default_config, (exists, remote), r),
        call_ensures(config_with_remote, (Some(given),), text),
    ensures
        text@ == "default_remote = "@ + given@ + "\n[hooks]\nrecord = []\n"@,
        r is None <==> exists,
        r matches Some(text) ==> match remote {
            Some(s) => text@ == "default_remote = "@ + quoted(s@) + "\n[hooks]\nrecord = []\n"@,
            None => text@ == "[hooks]\nrecord = []\n"@,
        },
{
    law_new_configurations(given@);
    match remote {
        Some(s) => {
            law_new_configurations(quoted(s@));
        },
        None => {},
    }
}

/// Making a repository fails exactly if there is one. Otherwise its directories
/// are made, and its `.ignore` and configuration files are those that are written
/// where there are none, in their places.
pub proof fn law_making_a_repository(
    path: DirPath,
    existing: Existing,
    kind: Option<&str>,
    kinds: Vec<UserKind>,
    remote: Option<&str>,
    max_files: usize,
    r: Result<InitPlan, RepositoryError>,
    ignore: Option<String>,
    config: Option<String>,
)
    requires
        call_ensures(
            Repository::init,
            (&path, &existing, kind, &kinds, remote, max_files),
            r,
        ),
        call_ensures(init_dot_ignore, (existing.ignore, kind, &kinds), ignore),
        call_ensures(init_default_config, (existing.config, remote), config),
    ensures
        r is Err <==> existing.pristine,
        r matches Err(e) ==> e == RepositoryError::AlreadyInRepository,
        r matches Ok(plan) ==> {
            let dot_dir = path@.parts + seq![vstd::utf8::encode_utf8(".pijul"@)];
            &&& plan.create@.parts == dot_dir + seq![vstd::utf8::encode_utf8("pristine"@)]
            &&& plan.create@.rooted == path@.rooted
            &&& plan.ignore.0@.parts == path@.parts + seq![vstd::utf8::encode_utf8(".ignore"@)]
            &&& plan.ignore.0@.rooted == path@.rooted
            &&& text_view(plan.ignore.1) == text_view(ignore)
            &&& plan.config.0@.parts == dot_dir + seq![vstd::utf8::encode_utf8("config"@)]
            &&& plan.config.0@.rooted == path@.rooted
            &&& text_view(plan.config.1) == text_view(config)
            &&& plan.repository.path@ == path@
            &&& plan.repository.working_copy@ == path@
            &&& plan.repository.changes.0@ == path@
            &&& plan.repository.changes.1 == max_files
            &&& plan.repository.changes_dir@.parts == dot_dir + seq![
                vstd::utf8::encode_utf8("changes"@),
            ]
            &&& plan.repository.pristine@.parts == dot_dir + seq![
                vstd::utf8::encode_utf8("pristine"@),
                vstd::utf8::encode_utf8("db"@),
            ]
            &&& plan.repository.config is None
        },
{
    if let Ok(plan) = r {
        let dot_dir = path@.parts + seq![vstd::utf8::encode_utf8(".pijul"@)];
        law_layout(plan.repository, path@, data_dir(path@), max_files);
        law_files_of_a_repository(path@);
        assert(path@.parts + seq![
            vstd::utf8::encode_utf8(".pijul"@),
            vstd::utf8::encode_utf8("pristine"@),
        ] =~= dot_dir + seq![vstd::utf8::encode_utf8("pristine"@)]);
        assert(path@.parts + seq![
            vstd::utf8::encode_utf8(".pijul"@),
            vstd::utf8::encode_utf8("config"@),
        ] =~= dot_dir + seq![vstd::utf8::encode_utf8("config"@)]);
    }
}

/// A repository is looked for under the given name, and usually under its own
/// one, with what reading its configuration gave.
pub proof fn law_looking_for_a_repository(
    cur: DirPath,
    dot_dir: DirPath,
    existing: Vec<DirPath>,
    config: Option<Vec<u8>>,
    max_files: usize,
    a: Result<Repository, RepositoryError>,
    b: Result<Repository, RepositoryError>,
)
    requires
        call_ensures(Repository::find_root, (&cur, &existing, config, max_files), a),
        call_ensures(
            Repository::find_root_with_dot_dir,
            (&cur, &dot_dir, &existing, config, max_files),
            b,
        ),
    ensures
        ({
            let read = match config {
                Some(bytes) => Some(bytes@),
                None => None,
            };
            let usual = PathView {
                rooted: false,
                parts: seq![vstd::utf8::encode_utf8(".pijul"@)],
            };
            &&& found(cur@, usual, existing@, read, max_files, a)
            &&& found(cur@, dot_dir@, existing@, read, max_files, b)
        }),
{
    assert(usual_dot_dir().parts =~= seq![vstd::utf8::encode_utf8(".pijul"@)]);
}

/// The repository whose data are in a directory is in the directory above, and
/// has the text of its configuration. It is refused exactly if that is no text.
pub proof fn law_repositories_at_a_place(
    dot_dir: DirPath,
    config: Option<Vec<u8>>,
    max_files: usize,
    r: Result<Repository, RepositoryError>,
)
    requires
        call_ensures(Repository::at, (&dot_dir, config, max_files), r),
    ensures
        r is Err <==> (config matches Some(bytes) && !vstd::utf8::valid_utf8(bytes@)),
        r matches Err(e) ==> e == RepositoryError::ConfigNotUtf8,
        r matches Ok(repo) ==> {
            &&& dot_dir@.parts.len() > 0 ==> repo.path@.parts == dot_dir@.parts.drop_last()
            &&& repo.path@.rooted == dot_dir@.rooted
            &&& repo.working_copy@ == repo.path@
            &&& repo.changes.0@ == repo.path@
            &&& repo.changes.1 == max_files
            &&& repo.changes_dir@.parts == dot_dir@.parts + seq![
                vstd::utf8::encode_utf8("changes"@),
            ]
            &&& repo.pristine@.parts == dot_dir@.parts + seq![
                vstd::utf8::encode_utf8("pristine"@),
                vstd::utf8::encode_utf8("db"@),
            ]
            &&& match config {
                Some(bytes) => repo.config matches Some(text) && vstd::utf8::encode_utf8(text@)
                    == bytes@,
                None => repo.config is None,
            }
        },
{
    law_texts_of_configurations(bytes_view(config));
    if let Ok(repo) = r {
        law_layout(repo, parent_or_same(dot_dir@), dot_dir@, max_files);
    }
}

/// The places of the configuration file, and of the directory whose existence
/// says that there is a repository. An update writes the text that it is given
/// to the first of these, and nothing if there is no text.
pub proof fn law_places_of_files(
    dot_dir: DirPath,
    path: DirPath,
    repo: Repository,
    text: Option<String>,
    a: DirPath,
    b: DirPath,
    c: Option<(DirPath, String)>,
)
    requires
        call_ensures(Repository::config_path, (&dot_dir,), a),
        call_ensures(Repository::pristine_dir, (&path,), b),
        call_ensures(Repository::update_config, (&repo, text), c),
    ensures
        a@.parts == dot_dir@.parts.push(vstd::utf8::encode_utf8("config"@)),
        a@.rooted == dot_dir@.rooted,
        b@.parts == path@.parts + seq![
            vstd::utf8::encode_utf8(".pijul"@),
            vstd::utf8::encode_utf8("pristine"@),
        ],
        b@.rooted == path@.rooted,
        c is Some <==> text is Some,
        c matches Some((file, written)) ==> {
            &&& written@ == text->0@
            &&& file@.rooted == repo.path@.rooted
            &&& file@.parts == repo.path@.parts + seq![
                vstd::utf8::encode_utf8(".pijul"@),
                vstd::utf8::encode_utf8("config"@),
            ]
        },
{
    law_files_of_a_repository(path@);
    law_files_of_a_repository(repo.path@);
}

/// What is done to paths: a copy says the same, two are the same exactly if they
/// say the same, and a name is added at the end.
pub proof fn law_working_on_paths(
    p: DirPath,
    q: DirPath,
    name: &str,
    copy: DirPath,
    same: bool,
    longer: DirPath,
)
    requires
        call_ensures(DirPath::copied, (&p,), copy),
        call_ensures(DirPath::same, (&p, &q), same),
        call_ensures(DirPath::join_name, (&p, name), longer),
    ensures
        copy@ == p@,
        same <==> p@.rooted == q@.rooted && p@.parts == q@.parts,
        longer@.rooted == p@.rooted,
        longer@.parts == p@.parts.push(vstd::utf8::encode_utf8(name@)),
{
}

/// What changes a path: a name or another path is added at the end, or the last
/// component is taken away, if there is one.
pub proof fn law_changing_a_path(
    a: &mut DirPath,
    b: &mut DirPath,
    c: &mut DirPath,
    name: &str,
    other: DirPath,
    popped: bool,
)
    requires
        call_ensures(DirPath::push_name, (a, name), ()),
        call_ensures(DirPath::push, (b, &other), ()),
        call_ensures(DirPath::pop, (c,), popped),
    ensures
        final(a)@.rooted == old(a)@.rooted,
        final(a)@.parts == old(a)@.parts.push(vstd::utf8::encode_utf8(name@)),
        other@.rooted ==> final(b)@ == other@,
        !other@.rooted ==> final(b)@.rooted == old(b)@.rooted && final(b)@.parts == old(b)@.parts
            + other@.parts,
        popped <==> old(c)@.parts.len() > 0,
        popped ==> final(c)@.rooted == old(c)@.rooted && final(c)@.parts
            == old(c)@.parts.drop_last(),
        !popped ==> final(c)@ == old(c)@,
{
}

/// A search starts at the given name in a directory, and goes on to the usual
/// name in the directory above the one that it is in, until there is none.
pub proof fn law_searching(
    cur: DirPath,
    dot_dir: DirPath,
    start: RootSearch,
    search: &mut RootSearch,
    more: bool,
)
    requires
        call_ensures(RootSearch::new, (&cur, &dot_dir), start),
        call_ensures(RootSearch::reject, (search,), more),
    ensures
        dot_dir@.rooted ==> start.cur@ == dot_dir@,
        !dot_dir@.rooted ==> start.cur@.rooted == cur@.rooted && start.cur@.parts == cur@.parts
            + dot_dir@.parts,
        more <==> old(search).cur@.parts.len() > 1,
        more ==> {
            &&& final(search).cur@.rooted == old(search).cur@.rooted
            &&& final(search).cur@.parts == old(search).cur@.parts.take(
                old(search).cur@.parts.len() - 2,
            ).push(vstd::utf8::encode_utf8(".pijul"@))
        },
{
    let parts = old(search).cur@.parts;
    if parts.len() > 1 {
        assert(parts.drop_last().drop_last() =~= parts.take(parts.len() - 2));
    }
}

/// What is said of errors, and when a repository was made.
pub proof fn law_messages(
    e: RepositoryError,
    quoted_path: &str,
    path: &str,
    a: Option<String>,
    b: String,
    c: String,
)
    requires
        call_ensures(RepositoryError::message, (&e, quoted_path), a),
        call_ensures(bad_config_message, (quoted_path,), b),
        call_ensures(created_message, (path,), c),
    ensures
        match e {
            RepositoryError::NotFound => a matches Some(s) && s@ == "No Pijul repository found"@,
            RepositoryError::AlreadyInRepository => a matches Some(s) && s@
                == "Already in a repository"@,
            RepositoryError::ConfigNotUtf8 => a is None,
            RepositoryError::BadConfig => a matches Some(s) && s@ == b@,
        },
        b@ == "Could not read configuration file at "@ + quoted_path@,
        c@ == "Repository created at "@ + path@,
{
}

} // verus!
