//! The ticket store: the `.tickets/` directory as a list of ticket files
//! (name and text), with the index of ticket ids, reading, searching and
//! editing of tickets. Reading the directory from disk and writing changed
//! files back are left to the caller.

use vstd::prelude::*;
use crate::edit::{append_note, has_open_field, insert_open_field, replace_field, replaced_field, with_note, with_open_field};
use crate::id::{candidates, filename_of, id_of_filename, resolve_id, ticket_filename, ticket_id_from_filename, ResolveError};
use crate::order::{insert_ticket, insertion_sorted, order_before, pair_before, sort_strings, str_before, TicketOrder};
use crate::storage::{parsed_as, query_matches, split_file, utc_timestamp, ParseError, SearchQuery, Ticket};
use crate::text::{copy_string, owned, push_str, str_eq, trim, views};
use crate::types::CreateOptions;

verus! {

/// Why a store operation failed.
#[derive(Debug)]
pub enum StorageError {
    /// The partial id names no ticket, or several.
    Resolve(ResolveError),
    /// No file of the directory holds the ticket.
    Unreadable { path: String },
    /// The ticket file could not be parsed.
    Parse(ParseError),
    /// The front matter has no such field.
    FieldNotFound { field: String, id: String },
}

impl StorageError {
    pub open spec fn message_spec(&self) -> Seq<char> {
        match self {
            StorageError::Resolve(e) => e.message_spec(),
            StorageError::Unreadable { path } => "Failed to read ticket file \""@ + path@ + "\""@,
            StorageError::Parse(e) => e.message_spec(),
            StorageError::FieldNotFound { field, id } =>
                "Field '"@ + field@ + "' not found in ticket '"@ + id@ + "'"@,
        }
    }

    /// The message that explains the error.
    pub fn message(&self) -> (m: String)
        ensures
            m@ == self.message_spec(),
    {
        match self {
            StorageError::Resolve(e) => e.message(),
            StorageError::Unreadable { path } => {
                let mut m = owned("Failed to read ticket file \"");
                push_str(&mut m, path.as_str());
                push_str(&mut m, "\"");
                m
            },
            StorageError::Parse(e) => e.message(),
            StorageError::FieldNotFound { field, id } => {
                let mut m = owned("Field '");
                push_str(&mut m, field.as_str());
                push_str(&mut m, "' not found in ticket '");
                push_str(&mut m, id.as_str());
                push_str(&mut m, "'");
                m
            },
        }
    }
}

/// The text of the path of the file `name` in the directory `dir`, as
/// `Path::join` writes it.
pub open spec fn path_join(dir: Seq<char>, name: Seq<char>) -> Seq<char> {
    if dir.len() == 0 || (name.len() > 0 && name[0] == '/') {
        name
    } else if dir.last() == '/' {
        dir + name
    } else {
        dir + seq!['/'] + name
    }
}

/// The position of the first file named `name`, at or after `i`.
pub open spec fn file_index_from(files: Seq<(Seq<char>, Seq<char>)>, name: Seq<char>, i: int) -> Option<int>
    decreases files.len() - i,
{
    if i < 0 || i >= files.len() {
        None
    } else if files[i].0 == name {
        Some(i)
    } else {
        file_index_from(files, name, i + 1)
    }
}

pub open spec fn file_index(files: Seq<(Seq<char>, Seq<char>)>, name: Seq<char>) -> Option<int> {
    file_index_from(files, name, 0)
}

/// The ticket ids of the file names, in the order of the files.
pub open spec fn file_ids(files: Seq<(Seq<char>, Seq<char>)>) -> Seq<Seq<char>>
    decreases files.len(),
{
    if files.len() == 0 {
        Seq::empty()
    } else {
        match id_of_filename(files.last().0) {
            Some(id) => file_ids(files.drop_last()).push(id),
            None => file_ids(files.drop_last()),
        }
    }
}

/// The index of the store: the ticket ids of its files, sorted.
pub open spec fn index_of_files(files: Seq<(Seq<char>, Seq<char>)>) -> Seq<Seq<char>> {
    insertion_sorted(file_ids(files), str_before())
}

/// What resolving `partial` against the ids `vs` gives (see `id::resolve_id`).
pub open spec fn resolves(vs: Seq<Seq<char>>, partial: Seq<char>, r: Result<String, StorageError>) -> bool {
    let p = trim(partial);
    let m = candidates(vs, p);
    if vs.contains(p) {
        r matches Ok(id) && id@ == p
    } else if m.len() == 0 {
        r matches Err(StorageError::Resolve(ResolveError::NotFound { partial })) && partial@ == p
    } else if m.len() == 1 {
        r matches Ok(id) && id@ == m[0]
    } else {
        r matches Err(StorageError::Resolve(ResolveError::Ambiguous { partial, matches }))
            && partial@ == p && views(matches@) == m
    }
}

/// What reading the ticket `id` from the files gives, with `now` as the
/// creation time of a file that has none.
pub open spec fn read_as(
    files: Seq<(Seq<char>, Seq<char>)>,
    dir: Seq<char>,
    id: Seq<char>,
    now: Seq<char>,
    r: Result<Ticket, StorageError>,
) -> bool {
    match file_index(files, filename_of(id)) {
        None => r matches Err(StorageError::Unreadable { path }) && path@ == path_join(dir, filename_of(id)),
        Some(i) => match r {
            Ok(t) => parsed_as(t, files[i].1, id, now),
            Err(e) => e matches StorageError::Parse(pe)
                && split_file(files[i].1) == Err::<(Seq<char>, Seq<char>), ParseError>(pe),
        },
    }
}

/// Reading the ticket `id` from the files succeeds.
pub open spec fn readable(files: Seq<(Seq<char>, Seq<char>)>, id: Seq<char>) -> bool {
    match file_index(files, filename_of(id)) {
        Some(i) => split_file(files[i].1) is Ok,
        None => false,
    }
}

/// The ticket store of a `.tickets/` directory.
pub struct Storage {
    /// Path of the `.tickets` directory.
    dir: String,
    /// The files of the directory: name and text.
    files: Vec<(String, String)>,
}

pub open spec fn file_views(files: Seq<(String, String)>) -> Seq<(Seq<char>, Seq<char>)> {
    files.map_values(|f: (String, String)| (f.0@, f.1@))
}

impl Storage {
    pub closed spec fn dir_view(&self) -> Seq<char> {
        self.dir@
    }

    /// The files of the store: name and text.
    pub closed spec fn files_view(&self) -> Seq<(Seq<char>, Seq<char>)> {
        file_views(self.files@)
    }

    /// The store of the directory `dir` whose files are `files` (name, text).
    pub fn from_listing(dir: String, files: Vec<(String, String)>) -> (s: Storage)
        ensures
            s.dir_view() == dir@,
            s.files_view() == file_views(files@),
    {
        Storage { dir, files }
    }

    /// Path of the `.tickets` directory.
    pub fn dir(&self) -> (r: &str)
        ensures
            r@ == self.dir_view(),
    {
        self.dir.as_str()
    }

    /// The path of the file of the ticket `id`.
    pub fn ticket_path(&self, id: &str) -> (r: String)
        ensures
            r@ == path_join(self.dir_view(), filename_of(id@)),
    {
        let name = ticket_filename(id);
        let d = crate::text::chars_of(self.dir.as_str());
        let n = crate::text::chars_of(name.as_str());
        if d.len() == 0 || (n.len() > 0 && n[0] == '/') {
            name
        } else if d[d.len() - 1] == '/' {
            let mut r = copy_string(&self.dir);
            push_str(&mut r, name.as_str());
            r
        } else {
            let mut r = copy_string(&self.dir);
            crate::text::push_char(&mut r, '/');
            push_str(&mut r, name.as_str());
            r
        }
    }

    /// The position of the first file named `name`.
    fn find_file(&self, name: &String) -> (r: Option<usize>)
        ensures
            match r {
                Some(i) => file_index(self.files_view(), name@) == Some(i as int) && i < self.files_view().len(),
                None => file_index(self.files_view(), name@) is None,
            },
    {
        let ghost fs = self.files_view();
        let mut i: usize = 0;
        while i < self.files.len()
            invariant
                fs == file_views(self.files@),
                file_index_from(fs, name@, 0) == file_index_from(fs, name@, i as int),
            decreases self.files.len() - i,
        {
            if str_eq(&self.files[i].0, name) {
                return Some(i);
            }
            i = i + 1;
        }
        None
    }

    /// All ticket ids (full), sorted: the ids of the files named `<id>.md`.
    pub fn all_ids(&self) -> (r: Vec<String>)
        ensures
            views(r@) == index_of_files(self.files_view()),
    {
        let ghost fs = self.files_view();
        let mut ids: Vec<String> = Vec::new();
        for k in 0..self.files.len()
            invariant
                fs == file_views(self.files@),
                views(ids@) == file_ids(fs.take(k as int)),
        {
            proof {
                assert(fs.take(k + 1).drop_last() =~= fs.take(k as int));
            }
            match ticket_id_from_filename(self.files[k].0.as_str()) {
                Some(id) => {
                    ids.push(id);
                    assert(views(ids@) =~= file_ids(fs.take(k as int)).push(id@));
                },
                None => {},
            }
        }
        assert(fs.take(fs.len() as int) =~= fs);
        sort_strings(ids)
    }

    /// Resolve a partial ID to a full ticket ID against the ids of the files:
    /// an exact match first, else the ids that end with it, else those that
    /// start with it, else those that contain it; the first of these tiers
    /// that is not empty must hold exactly one id (see `id::resolve_id`).
    pub fn resolve_id(&self, partial: &str) -> (r: Result<String, StorageError>)
        ensures
            resolves(index_of_files(self.files_view()), partial@, r),
    {
        let ids = self.all_ids();
        match resolve_id(ids.as_slice(), partial) {
            Ok(id) => Ok(copy_string(id)),
            Err(e) => Err(StorageError::Resolve(e)),
        }
    }

    /// Read the ticket `id` (a full id), with `now` as the creation time of a
    /// file that has none.
    pub fn read_at(&self, id: &str, now: &str) -> (r: Result<Ticket, StorageError>)
        ensures
            read_as(self.files_view(), self.dir_view(), id@, now@, r),
    {
        let name = ticket_filename(id);
        match self.find_file(&name) {
            None => Err(StorageError::Unreadable { path: self.ticket_path(id) }),
            Some(i) => match Ticket::parse_at(self.files[i].1.as_str(), id, now) {
                Ok(t) => Ok(t),
                Err(e) => Err(StorageError::Parse(e)),
            },
        }
    }

    /// Read the ticket `id` (a full id).
    pub fn read(&self, id: &str) -> (r: Result<Ticket, StorageError>)
        ensures
            exists|now: Seq<char>| read_as(self.files_view(), self.dir_view(), id@, now, r),
    {
        let now = utc_timestamp();
        self.read_at(id, now.as_str())
    }

    /// Read a ticket by partial ID.
    pub fn read_partial(&self, partial: &str) -> (r: Result<Ticket, StorageError>)
        ensures
            exists|res: Result<String, StorageError>| #![auto]
                resolves(index_of_files(self.files_view()), partial@, res) && match res {
                    Ok(id) => exists|now: Seq<char>| read_as(self.files_view(), self.dir_view(), id@, now, r),
                    Err(e) => r == Err::<Ticket, StorageError>(e),
                },
    {
        let res = self.resolve_id(partial);
        match res {
            Ok(id) => {
                let r = self.read(id.as_str());
                assert(resolves(index_of_files(self.files_view()), partial@, Ok::<String, StorageError>(id)));
                r
            },
            Err(e) => {
                assert(resolves(index_of_files(self.files_view()), partial@, Err::<String, StorageError>(e)));
                Err(e)
            },
        }
    }

    /// Read all tickets, in the order of their ids, with `now` as the
    /// creation time of a file that has none; the first ticket that cannot be
    /// read gives the error.
    pub fn all_at(&self, now: &str) -> (r: Result<Vec<Ticket>, StorageError>)
        ensures
            all_outcome(self.files_view(), self.dir_view(), now@, r),
    {
        let ids = self.all_ids();
        let ghost vs = index_of_files(self.files_view());
        let mut ts: Vec<Ticket> = Vec::new();
        for k in 0..ids.len()
            invariant
                views(ids@) == vs,
                vs == index_of_files(self.files_view()),
                ts@.len() == k,
                forall|j: int| 0 <= j < k ==> #[trigger] read_as(self.files_view(), self.dir_view(), vs[j], now@,
                    Ok::<Ticket, StorageError>(ts@[j])),
        {
            match self.read_at(ids[k].as_str(), now) {
                Ok(t) => {
                    ts.push(t);
                    assert(read_as(self.files_view(), self.dir_view(), vs[k as int], now@, Ok::<Ticket, StorageError>(ts@[k as int])));
                },
                Err(e) => {
                    proof {
                        lemma_read_prefix(self.files_view(), self.dir_view(), now@, vs, ts@, k as int);
                        assert(ids@[k as int]@ == vs[k as int]);
                        assert(read_as(self.files_view(), self.dir_view(), vs[k as int], now@, Err::<Ticket, StorageError>(e)));
                    }
                    return Err(e);
                },
            }
        }
        Ok(ts)
    }

    /// Read all tickets, in the order of their ids.
    pub fn all(&self) -> (r: Result<Vec<Ticket>, StorageError>)
        ensures
            exists|now: Seq<char>| #[trigger] all_outcome(self.files_view(), self.dir_view(), now, r),
    {
        let now = utc_timestamp();
        self.all_at(now.as_str())
    }

    /// The tickets that match `query`, by priority then id, with `now` as
    /// the creation time of a file that has none.
    pub fn search_at(&self, query: &SearchQuery, now: &str) -> (r: Result<Vec<Ticket>, StorageError>)
        ensures
            search_outcome(self.files_view(), self.dir_view(), now@, *query, r),
    {
        let mut tickets = self.all_at(now)?;
        let ghost ts = tickets@;
        let ghost keep = |t: Ticket| query_matches(*query, t);
        let n = tickets.len();
        let mut r: Vec<Ticket> = Vec::new();
        let mut k: usize = 0;
        while tickets.len() > 0
            invariant
                k + tickets@.len() == ts.len(),
                ts.len() == n,
                tickets@ == ts.skip(k as int),
                keep == |t: Ticket| query_matches(*query, t),
                r@ == insertion_sorted(crate::graph::tickets_where(ts.take(k as int), keep), order_before(TicketOrder::ByPriority)),
            decreases tickets@.len(),
        {
            let ghost rest = tickets@;
            let t = tickets.remove(0);
            proof {
                assert(rest[0] == ts[k as int]);
                assert(ts.take(k + 1).drop_last() =~= ts.take(k as int));
                assert(ts.take(k + 1).last() == ts[k as int]);
            }
            if query.matches(&t) {
                let ghost f = crate::graph::tickets_where(ts.take(k as int), keep);
                insert_ticket(&mut r, t, TicketOrder::ByPriority);
                assert(f.push(ts[k as int]).drop_last() =~= f);
            }
            proof {
                assert(tickets@ =~= rest.skip(1));
                assert(rest.skip(1) =~= ts.skip(k + 1));
            }
            k = k + 1;
        }
        assert(ts.take(k as int) =~= ts);
        Ok(r)
    }

    /// The tickets that match `query`, by priority then id.
    pub fn search(&self, query: &SearchQuery) -> (r: Result<Vec<Ticket>, StorageError>)
        ensures
            exists|now: Seq<char>| #[trigger] search_outcome(self.files_view(), self.dir_view(), now, *query, r),
    {
        let now = utc_timestamp();
        self.search_at(query, now.as_str())
    }
}

impl Storage {
    /// The text of the file named `name`, if the directory has one.
    pub fn file_text(&self, name: &str) -> (r: Option<String>)
        ensures
            match file_index(self.files_view(), name@) {
                Some(i) => r matches Some(t) && t@ == self.files_view()[i].1,
                None => r is None,
            },
    {
        let key = owned(name);
        match self.find_file(&key) {
            Some(i) => Some(copy_string(&self.files[i].1)),
            None => None,
        }
    }

    /// Create a new ticket from `opts` in the directory named `dir_name`
    /// (see `Ticket::create`), add its file to the store, and return its id
    /// and its file text.
    pub fn create(&mut self, opts: &CreateOptions, dir_name: &str, git_output: Option<String>) -> (r: (String, String))
        ensures
            exists|t: Ticket| #[trigger] crate::storage::made_from(t, *opts, r.0@, t.metadata.created@, crate::text::opt_view(git_output))
                && r.1@ == crate::storage::ticket_text(t),
            exists|draws: Seq<usize>|
                draws.len() == 4
                && (forall|k: int| 0 <= k < 4 ==> #[trigger] draws[k] < 36)
                && r.0@ == crate::id::id_from_draws(dir_name@, draws),
            final(self).dir_view() == old(self).dir_view(),
            final(self).files_view() == old(self).files_view().push((filename_of(r.0@), r.1@)),
    {
        let ghost git = crate::text::opt_view(git_output);
        let t = Ticket::create(opts, dir_name, git_output);
        let content = t.to_text();
        let id = copy_string(&t.metadata.id);
        let name = ticket_filename(id.as_str());
        let ghost before = self.files@;
        self.files.push((name, copy_string(&content)));
        assert(file_views(self.files@) =~= file_views(before).push((filename_of(id@), content@)));
        assert(crate::storage::made_from(t, *opts, id@, t.metadata.created@, git));
        assert(content@ == crate::storage::ticket_text(t));
        let r = (id, content);
        assert(crate::storage::made_from(t, *opts, r.0@, t.metadata.created@, git) && r.1@ == crate::storage::ticket_text(t));
        r
    }

    /// Set the front matter field `field` of the ticket `id` to `value` (see
    /// `edit::replace_field`); returns the new file text.
    pub fn update_field(&mut self, id: &str, field: &str, value: &str) -> (r: Result<String, StorageError>)
        ensures
            final(self).dir_view() == old(self).dir_view(),
            match file_index(old(self).files_view(), filename_of(id@)) {
                None => (r matches Err(StorageError::Unreadable { path })
                    && path@ == path_join(old(self).dir_view(), filename_of(id@)))
                    && final(self).files_view() == old(self).files_view(),
                Some(i) => match replaced_field(old(self).files_view()[i].1, field@, value@) {
                    None => (r matches Err(StorageError::FieldNotFound { field: f, id: d }) && f@ == field@ && d@ == id@)
                        && final(self).files_view() == old(self).files_view(),
                    Some(text) => (r matches Ok(t) && t@ == text)
                        && final(self).files_view() == old(self).files_view().update(i, (filename_of(id@), text)),
                },
            },
    {
        let name = ticket_filename(id);
        match self.find_file(&name) {
            None => Err(StorageError::Unreadable { path: self.ticket_path(id) }),
            Some(i) => {
                match replace_field(self.files[i].1.as_str(), field, value) {
                    None => Err(StorageError::FieldNotFound { field: owned(field), id: owned(id) }),
                    Some(text) => {
                        let ghost before = self.files@;
                        let out = copy_string(&text);
                        self.files.set(i, (name, text));
                        assert(file_views(self.files@) =~= file_views(before).update(i as int, (filename_of(id@), out@)));
                        Ok(out)
                    },
                }
            },
        }
    }

    /// Append a note with the text `body`, stamped `timestamp`, to the ticket
    /// `id` (see `edit::append_note`); returns the new file text.
    pub fn add_note_at(&mut self, id: &str, body: &str, timestamp: &str) -> (r: Result<String, StorageError>)
        ensures
            final(self).dir_view() == old(self).dir_view(),
            noted(old(self).files_view(), old(self).dir_view(), id@, body@, timestamp@, r, final(self).files_view()),
    {
        let name = ticket_filename(id);
        match self.find_file(&name) {
            None => Err(StorageError::Unreadable { path: self.ticket_path(id) }),
            Some(i) => {
                let text = append_note(self.files[i].1.as_str(), timestamp, body);
                let ghost before = self.files@;
                let out = copy_string(&text);
                self.files.set(i, (name, text));
                assert(file_views(self.files@) =~= file_views(before).update(i as int, (filename_of(id@), out@)));
                Ok(out)
            },
        }
    }

    /// Append a note with the text `body`, stamped with the current time, to
    /// the ticket `id`; returns the new file text.
    pub fn add_note(&mut self, id: &str, body: &str) -> (r: Result<String, StorageError>)
        ensures
            final(self).dir_view() == old(self).dir_view(),
            exists|timestamp: Seq<char>|
                #[trigger] noted(old(self).files_view(), old(self).dir_view(), id@, body@, timestamp, r, final(self).files_view()),
    {
        let now = utc_timestamp();
        self.add_note_at(id, body, now.as_str())
    }
}

/// Where adding `open:` fields to the files stands after some of them:
/// the files, the `(id, value)` of each file changed, and how many files
/// already had the field.
pub ghost struct MigrateState {
    pub files: Seq<(Seq<char>, Seq<char>)>,
    pub modified: Seq<(Seq<char>, bool)>,
    pub skipped: nat,
}

/// Adding `open:` fields to the first `k` files of `fs`: each ticket file
/// (named `<id>.md`) whose front matter lacks the field gets it; those whose
/// front matter has it are counted; files with no front matter are left
/// alone and not counted.
pub open spec fn migrate_steps(fs: Seq<(Seq<char>, Seq<char>)>, k: nat) -> MigrateState
    decreases k,
{
    if k == 0 || k > fs.len() {
        MigrateState { files: fs, modified: Seq::empty(), skipped: 0 }
    } else {
        let st = migrate_steps(fs, (k - 1) as nat);
        let f = fs[k - 1];
        match id_of_filename(f.0) {
            None => st,
            Some(id) => match with_open_field(f.1) {
                Some((text, open)) => MigrateState {
                    files: st.files.update(k - 1, (f.0, text)),
                    modified: st.modified.push((id, open)),
                    skipped: st.skipped,
                },
                None => if has_open_field(f.1) {
                    MigrateState { files: st.files, modified: st.modified, skipped: st.skipped + 1 }
                } else {
                    st
                },
            },
        }
    }
}

impl Storage {
    /// Add an `open:` field to every ticket file that lacks one (see
    /// `edit::insert_open_field`). Returns the `(id, value)` of each changed
    /// ticket, by id, and how many tickets already had the field.
    pub fn migrate(&mut self) -> (r: (Vec<(String, bool)>, usize))
        ensures
            ({
                let st = migrate_steps(old(self).files_view(), old(self).files_view().len());
                &&& final(self).files_view() == st.files
                &&& crate::order::pair_views(r.0@) == insertion_sorted(st.modified, pair_before())
                &&& r.1 == st.skipped
            }),
            final(self).dir_view() == old(self).dir_view(),
    {
        let ghost fs = self.files_view();
        let mut modified: Vec<(String, bool)> = Vec::new();
        let mut skipped: usize = 0;
        let n = self.files.len();
        for k in 0..n
            invariant
                n == fs.len(),
                self.files@.len() == n,
                ({
                    let st = migrate_steps(fs, k as nat);
                    &&& self.files_view() == st.files
                    &&& crate::order::pair_views(modified@) == st.modified
                    &&& skipped == st.skipped
                }),
                skipped <= k,
                self.dir_view() == old(self).dir_view(),
                forall|j: int| k <= j < n ==> #[trigger] self.files_view()[j] == fs[j],
        {
            let ghost st = migrate_steps(fs, k as nat);
            assert(self.files_view()[k as int] == fs[k as int]);
            match ticket_id_from_filename(self.files[k].0.as_str()) {
                None => {},
                Some(id) => {
                    match insert_open_field(self.files[k].1.as_str()) {
                        Some((text, open)) => {
                            let name = copy_string(&self.files[k].0);
                            let ghost before = self.files@;
                            let ghost tv = text@;
                            self.files.set(k, (name, text));
                            assert(file_views(self.files@) =~= file_views(before).update(k as int, (fs[k as int].0, tv)));
                            let ghost mv = crate::order::pair_views(modified@);
                            modified.push((id, open));
                            assert(crate::order::pair_views(modified@) =~= mv.push((id@, open)));
                        },
                        None => {
                            if crate::edit::front_matter_has_open(self.files[k].1.as_str()) {
                                skipped = skipped + 1;
                            }
                        },
                    }
                },
            }
        }
        let sorted = crate::order::sort_pairs(modified);
        (sorted, skipped)
    }
}

/// What appending the note `body`, stamped `timestamp`, to the ticket `id`
/// gives: the result `r` and the files after.
pub open spec fn noted(
    files: Seq<(Seq<char>, Seq<char>)>,
    dir: Seq<char>,
    id: Seq<char>,
    body: Seq<char>,
    timestamp: Seq<char>,
    r: Result<String, StorageError>,
    after: Seq<(Seq<char>, Seq<char>)>,
) -> bool {
    match file_index(files, filename_of(id)) {
        None => (r matches Err(StorageError::Unreadable { path }) && path@ == path_join(dir, filename_of(id)))
            && after == files,
        Some(i) => {
            let text = with_note(files[i].1, timestamp, body);
            (r matches Ok(t) && t@ == text) && after == files.update(i, (filename_of(id), text))
        },
    }
}

/// `ts` are the tickets of all ids of the files, in order, read with `now`.
pub open spec fn all_read(files: Seq<(Seq<char>, Seq<char>)>, dir: Seq<char>, now: Seq<char>, ts: Seq<Ticket>) -> bool {
    let ids = index_of_files(files);
    &&& ts.len() == ids.len()
    &&& forall|k: int| 0 <= k < ids.len() ==> #[trigger] read_as(files, dir, ids[k], now, Ok::<Ticket, StorageError>(ts[k]))
}

/// `e` is the error of reading the first id of the files that cannot be read.
pub open spec fn first_unreadable(files: Seq<(Seq<char>, Seq<char>)>, dir: Seq<char>, now: Seq<char>, e: StorageError) -> bool {
    let ids = index_of_files(files);
    exists|k: int| 0 <= k < ids.len()
        && (forall|j: int| 0 <= j < k ==> readable(files, #[trigger] ids[j]))
        && #[trigger] read_as(files, dir, ids[k], now, Err::<Ticket, StorageError>(e))
}

proof fn lemma_read_prefix(
    files: Seq<(Seq<char>, Seq<char>)>,
    dir: Seq<char>,
    now: Seq<char>,
    vs: Seq<Seq<char>>,
    ts: Seq<Ticket>,
    k: int,
)
    requires
        0 <= k <= vs.len(),
        k <= ts.len(),
        forall|j: int| 0 <= j < k ==> #[trigger] read_as(files, dir, vs[j], now, Ok::<Ticket, StorageError>(ts[j])),
    ensures
        forall|j: int| 0 <= j < k ==> readable(files, #[trigger] vs[j]),
{
    assert forall|j: int| 0 <= j < k implies readable(files, #[trigger] vs[j]) by {
        assert(read_as(files, dir, vs[j], now, Ok::<Ticket, StorageError>(ts[j])));
    }
}

/// What reading all tickets gives.
pub open spec fn all_outcome(
    files: Seq<(Seq<char>, Seq<char>)>,
    dir: Seq<char>,
    now: Seq<char>,
    r: Result<Vec<Ticket>, StorageError>,
) -> bool {
    match r {
        Ok(ts) => all_read(files, dir, now, ts@),
        Err(e) => first_unreadable(files, dir, now, e),
    }
}

/// What a search with the query `q` gives.
pub open spec fn search_outcome(
    files: Seq<(Seq<char>, Seq<char>)>,
    dir: Seq<char>,
    now: Seq<char>,
    q: SearchQuery,
    r: Result<Vec<Ticket>, StorageError>,
) -> bool {
    match r {
        Ok(rs) => exists|ts: Seq<Ticket>| #[trigger] all_read(files, dir, now, ts) && rs@ == search_result(ts, q),
        Err(e) => first_unreadable(files, dir, now, e),
    }
}

/// The result of a search over the tickets `ts`: those that match, by
/// priority then id.
pub open spec fn search_result(ts: Seq<Ticket>, q: SearchQuery) -> Seq<Ticket> {
    insertion_sorted(crate::graph::tickets_where(ts, |t: Ticket| query_matches(q, t)), order_before(TicketOrder::ByPriority))
}

/// The index lists the ticket ids of the files sorted, each as often as a
/// file names it.
pub proof fn lemma_index_sorted(files: Seq<(Seq<char>, Seq<char>)>)
    ensures
        crate::order::sorted_by(index_of_files(files), str_before()),
        index_of_files(files).to_multiset() == file_ids(files).to_multiset(),
{
    crate::order::lemma_str_order();
    crate::order::lemma_insertion_sorted(file_ids(files), str_before());
}

/// The index is computed from the files on every call, so it is never stale:
/// once the file of a ticket `id` is added (as `create` adds it), `id` is in
/// the index and resolving `id` itself gives `id` back. (An id with white
/// space at either end is left out: resolving trims the query first.)
pub proof fn lemma_created_resolves(
    files: Seq<(Seq<char>, Seq<char>)>,
    id: Seq<char>,
    text: Seq<char>,
    r: Result<String, StorageError>,
)
    requires
        trim(id) == id,
        resolves(index_of_files(files.push((filename_of(id), text))), id, r),
    ensures
        index_of_files(files.push((filename_of(id), text))).contains(id),
        r matches Ok(x) && x@ == id,
{
    let fs = files.push((filename_of(id), text));
    let f = filename_of(id);
    assert(f.skip(f.len() - 3) =~= seq!['.', 'm', 'd']);
    assert(f.take(f.len() - 3) =~= id);
    assert(id_of_filename(f) == Some(id));
    assert(fs.drop_last() =~= files);
    assert(file_ids(fs) == file_ids(files).push(id));
    let ids = file_ids(fs);
    assert(ids[ids.len() - 1] == id);
    assert(ids.contains(id));
    lemma_index_sorted(fs);
    vstd::seq_lib::to_multiset_contains(ids, id);
    vstd::seq_lib::to_multiset_contains(index_of_files(fs), id);
}

/// A search gives the tickets that match, each once, by priority then id.
pub proof fn lemma_search_ordered(ts: Seq<Ticket>, q: SearchQuery)
    ensures
        crate::order::sorted_by(search_result(ts, q), order_before(TicketOrder::ByPriority)),
        search_result(ts, q).to_multiset()
            == crate::graph::tickets_where(ts, |t: Ticket| query_matches(q, t)).to_multiset(),
{
    crate::order::lemma_priority_order();
    crate::order::lemma_insertion_sorted(
        crate::graph::tickets_where(ts, |t: Ticket| query_matches(q, t)),
        order_before(TicketOrder::ByPriority),
    );
}

/// The report of adding `open:` fields lists the changed tickets by id.
pub proof fn lemma_migrate_report_sorted(fs: Seq<(Seq<char>, Seq<char>)>)
    ensures
        ({
            let st = migrate_steps(fs, fs.len());
            &&& crate::order::sorted_by(insertion_sorted(st.modified, pair_before()), pair_before())
            &&& insertion_sorted(st.modified, pair_before()).to_multiset() == st.modified.to_multiset()
        }),
{
    crate::order::lemma_pair_order();
    crate::order::lemma_insertion_sorted(migrate_steps(fs, fs.len()).modified, pair_before());
}

/// A file after adding the `open:` field: a ticket file without the field
/// gets it; any other file stays as it is.
pub open spec fn migrated_file(f: (Seq<char>, Seq<char>)) -> (Seq<char>, Seq<char>) {
    match id_of_filename(f.0) {
        Some(_) => match with_open_field(f.1) {
            Some((text, _)) => (f.0, text),
            None => f,
        },
        None => f,
    }
}

proof fn lemma_migrate_files(fs: Seq<(Seq<char>, Seq<char>)>, k: nat)
    requires
        k <= fs.len(),
    ensures
        migrate_steps(fs, k).files.len() == fs.len(),
        forall|j: int| 0 <= j < k ==> #[trigger] migrate_steps(fs, k).files[j] == migrated_file(fs[j]),
        forall|j: int| k <= j < fs.len() ==> #[trigger] migrate_steps(fs, k).files[j] == fs[j],
    decreases k,
{
    if k > 0 {
        lemma_migrate_files(fs, (k - 1) as nat);
    }
}

proof fn lemma_migrate_settled(fs: Seq<(Seq<char>, Seq<char>)>, k: nat)
    requires
        k <= fs.len(),
        forall|j: int| 0 <= j < fs.len() ==> #[trigger] migrated_file(fs[j]) == fs[j],
    ensures
        migrate_steps(fs, k).files == fs,
        migrate_steps(fs, k).modified.len() == 0,
    decreases k,
{
    if k > 0 {
        lemma_migrate_settled(fs, (k - 1) as nat);
        let f = fs[k - 1];
        assert(migrated_file(fs[k - 1]) == fs[k - 1]);
        if let Some(id) = id_of_filename(f.0) {
            if let Some((text, open)) = with_open_field(f.1) {
                crate::edit::lemma_open_field_once(f.1);
                assert(with_open_field(text) is None);
                assert(migrated_file(f) == (f.0, text));
                assert(text == f.1);
            }
        }
    }
}

/// Adding the `open:` field twice changes nothing the second time: no file
/// changes and no ticket is reported.
pub proof fn lemma_migrate_twice(fs: Seq<(Seq<char>, Seq<char>)>)
    ensures
        ({
            let once = migrate_steps(fs, fs.len()).files;
            &&& migrate_steps(once, once.len()).files == once
            &&& migrate_steps(once, once.len()).modified.len() == 0
        }),
{
    lemma_migrate_files(fs, fs.len());
    let once = migrate_steps(fs, fs.len()).files;
    assert forall|j: int| 0 <= j < once.len() implies #[trigger] migrated_file(once[j]) == once[j] by {
        let f = fs[j];
        assert(once[j] == migrated_file(f));
        match id_of_filename(f.0) {
            Some(_) => match with_open_field(f.1) {
                Some((text, _)) => {
                    crate::edit::lemma_open_field_once(f.1);
                },
                None => {},
            },
            None => {},
        }
    }
    lemma_migrate_settled(once, once.len());
}

} // verus!
