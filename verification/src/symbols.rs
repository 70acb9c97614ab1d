//! The source-symbol cross-reference model: where each function is
//! declared, defined and called, and the token shapes a viewer consumes.
//! The compiler front end that discovers the entities lives outside the
//! core; it hands in plain values.

use vstd::prelude::*;

use crate::assoc::{lookup_chars, unique_keys_chars};
use crate::error::IgrepError;

verus! {

/// A position within one file: 1-based line and column, byte offset, and
/// the token length.
#[derive(Debug, PartialEq, Eq, Structural, Clone, Copy, Hash)]
pub struct OneFileLocation {
    line: u32,
    column: u32,
    offset: u32,
    len: u32,
}

impl View for OneFileLocation {
    type V = (u32, u32, u32, u32);

    closed spec fn view(&self) -> (u32, u32, u32, u32) {
        (self.line, self.column, self.offset, self.len)
    }
}

impl OneFileLocation {
    pub fn new(line: u32, column: u32, offset: u32, len: u32) -> (r: Self)
        ensures
            r@ == (line, column, offset, len),
    {
        OneFileLocation { line, column, offset, len }
    }

    pub fn offset(&self) -> (r: u32)
        ensures
            r == self@.2,
    {
        self.offset
    }

    pub fn len(&self) -> (r: u32)
        ensures
            r == self@.3,
    {
        self.len
    }

    pub fn line(&self) -> (r: u32)
        ensures
            r == self@.0,
    {
        self.line
    }

    pub fn column(&self) -> (r: u32)
        ensures
            r == self@.1,
    {
        self.column
    }
}

/// A position in the corpus: a file path and a position within it.
#[derive(Debug)]
pub struct FileLocation {
    file: String,
    loc: OneFileLocation,
}

/// The mathematical value of a file location.
pub open spec fn floc_view(x: &FileLocation) -> (Seq<char>, (u32, u32, u32, u32)) {
    (x.file_spec(), x.loc_spec())
}

impl FileLocation {
    pub closed spec fn file_spec(&self) -> Seq<char> {
        self.file@
    }

    pub closed spec fn loc_spec(&self) -> (u32, u32, u32, u32) {
        self.loc@
    }

    /// Builds a location from plain values; the compiler front end
    /// resolves its own location type to these.
    pub fn new(file: String, loc: OneFileLocation) -> (r: Self)
        ensures
            r.file_spec() == file@,
            r.loc_spec() == loc@,
    {
        FileLocation { file, loc }
    }

    pub fn file(&self) -> (r: &str)
        ensures
            r@ == self.file_spec(),
    {
        self.file.as_str()
    }

    pub fn loc(&self) -> (r: &OneFileLocation)
        ensures
            r@ == self.loc_spec(),
    {
        &self.loc
    }

    /// A copy of this location.
    pub fn duplicate(&self) -> (r: Self)
        ensures
            r.file_spec() == self.file_spec(),
            r.loc_spec() == self.loc_spec(),
    {
        FileLocation { file: self.file.clone(), loc: self.loc }
    }
}

/// The positions gathered for one function.
pub struct FunctionResult {
    declarations: Vec<FileLocation>,
    definitions: Vec<FileLocation>,
    calls: Vec<FileLocation>,
}

/// The mathematical value of a location list.
pub open spec fn locs_view(v: Seq<FileLocation>) -> Seq<(Seq<char>, (u32, u32, u32, u32))> {
    v.map_values(|x: FileLocation| (x.file_spec(), x.loc_spec()))
}

/// Adds a site to a list once: a site already present is not repeated.
pub open spec fn add_site(
    ls: Seq<(Seq<char>, (u32, u32, u32, u32))>,
    x: (Seq<char>, (u32, u32, u32, u32)),
) -> Seq<(Seq<char>, (u32, u32, u32, u32))> {
    if ls.contains(x) {
        ls
    } else {
        ls.push(x)
    }
}

/// Whether the list holds the location.
fn contains_loc(v: &Vec<FileLocation>, x: &FileLocation) -> (r: bool)
    ensures
        r == locs_view(v@).contains(floc_view(x)),
{
    let ghost mv = locs_view(v@);
    let mut i: usize = 0;
    while i < v.len()
        invariant
            mv == locs_view(v@),
            mv.len() == v@.len(),
            0 <= i <= v@.len(),
            forall|j: int| 0 <= j < i ==> mv[j] != floc_view(x),
        decreases v@.len() - i,
    {
        let same_file = crate::index::bytes_eq(v[i].file().as_bytes(), x.file().as_bytes());
        proof {
            broadcast use vstd::utf8::encode_utf8_decode_utf8;

            if same_file {
                assert(vstd::utf8::decode_utf8(vstd::utf8::encode_utf8(v@[i as int].file_spec()))
                    == vstd::utf8::decode_utf8(vstd::utf8::encode_utf8(x.file_spec())));
                assert(v@[i as int].file_spec() == x.file_spec());
            }
        }
        if same_file && v[i].loc().line() == x.loc().line() && v[i].loc().column()
            == x.loc().column() && v[i].loc().offset() == x.loc().offset() && v[i].loc().len()
            == x.loc().len() {
            proof {
                assert(mv[i as int] == floc_view(x));
            }
            return true;
        }
        proof {
            assert(mv[i as int] != floc_view(x));
        }
        i += 1;
    }
    proof {
        if mv.contains(floc_view(x)) {
            let j = choose|j: int| 0 <= j < mv.len() && mv[j] == floc_view(x);
        }
    }
    false
}

impl FunctionResult {
    pub closed spec fn declarations_spec(&self) -> Seq<(Seq<char>, (u32, u32, u32, u32))> {
        locs_view(self.declarations@)
    }

    pub closed spec fn definitions_spec(&self) -> Seq<(Seq<char>, (u32, u32, u32, u32))> {
        locs_view(self.definitions@)
    }

    pub closed spec fn calls_spec(&self) -> Seq<(Seq<char>, (u32, u32, u32, u32))> {
        locs_view(self.calls@)
    }

    pub fn new() -> (r: Self)
        ensures
            r.declarations_spec() =~= Seq::<(Seq<char>, (u32, u32, u32, u32))>::empty(),
            r.definitions_spec() =~= Seq::<(Seq<char>, (u32, u32, u32, u32))>::empty(),
            r.calls_spec() =~= Seq::<(Seq<char>, (u32, u32, u32, u32))>::empty(),
    {
        let r = FunctionResult {
            declarations: Vec::new(),
            definitions: Vec::new(),
            calls: Vec::new(),
        };
        proof {
            assert(r.declarations_spec() =~= Seq::<(Seq<char>, (u32, u32, u32, u32))>::empty());
            assert(r.definitions_spec() =~= Seq::<(Seq<char>, (u32, u32, u32, u32))>::empty());
            assert(r.calls_spec() =~= Seq::<(Seq<char>, (u32, u32, u32, u32))>::empty());
        }
        r
    }

    pub fn declarations(&self) -> (r: &Vec<FileLocation>)
        ensures
            locs_view(r@) == self.declarations_spec(),
    {
        &self.declarations
    }

    pub fn definitions(&self) -> (r: &Vec<FileLocation>)
        ensures
            locs_view(r@) == self.definitions_spec(),
    {
        &self.definitions
    }

    pub fn calls(&self) -> (r: &Vec<FileLocation>)
        ensures
            locs_view(r@) == self.calls_spec(),
    {
        &self.calls
    }

    /// Records a declaration site once.
    pub fn add_declaration(&mut self, loc: FileLocation)
        ensures
            final(self).declarations_spec() == add_site(
                old(self).declarations_spec(),
                floc_view(&loc),
            ),
            final(self).definitions_spec() == old(self).definitions_spec(),
            final(self).calls_spec() == old(self).calls_spec(),
    {
        if !contains_loc(&self.declarations, &loc) {
            self.declarations.push(loc);
            proof {
                assert(self.declarations_spec() =~= old(self).declarations_spec().push(
                    floc_view(&loc),
                ));
            }
        }
    }

    /// Records a definition site once.
    pub fn add_definition(&mut self, loc: FileLocation)
        ensures
            final(self).definitions_spec() == add_site(
                old(self).definitions_spec(),
                floc_view(&loc),
            ),
            final(self).declarations_spec() == old(self).declarations_spec(),
            final(self).calls_spec() == old(self).calls_spec(),
    {
        if !contains_loc(&self.definitions, &loc) {
            self.definitions.push(loc);
            proof {
                assert(self.definitions_spec() =~= old(self).definitions_spec().push(
                    floc_view(&loc),
                ));
            }
        }
    }

    /// Records a call site once.
    pub fn add_call(&mut self, loc: FileLocation)
        ensures
            final(self).calls_spec() == add_site(old(self).calls_spec(), floc_view(&loc)),
            final(self).declarations_spec() == old(self).declarations_spec(),
            final(self).definitions_spec() == old(self).definitions_spec(),
    {
        if !contains_loc(&self.calls, &loc) {
            self.calls.push(loc);
            proof {
                assert(self.calls_spec() =~= old(self).calls_spec().push(floc_view(&loc)));
            }
        }
    }
}

/// What kind of site one discovered entity is, decided from the plain
/// facts the compiler front end reports about it.
pub enum FunctionSite {
    Declaration,
    Definition,
    Call,
}

/// The decision of the symbol gatherer for one function entity: a
/// definition wins, a bare declaration is a declaration, and an entity
/// that is neither is a malformed report.
pub fn classify_function(is_definition: bool, is_declaration: bool) -> (r: Result<
    FunctionSite,
    IgrepError,
>)
    ensures
        is_definition ==> (r matches Ok(s) && s is Definition),
        !is_definition && is_declaration ==> (r matches Ok(s) && s is Declaration),
        !is_definition && !is_declaration ==> r is Err,
{
    if is_definition {
        Ok(FunctionSite::Definition)
    } else if is_declaration {
        Ok(FunctionSite::Declaration)
    } else {
        Err(IgrepError::AlreadyExists)
    }
}

/// One gathered function as plain values: declarations, definitions,
/// calls.
pub open spec fn fr_view(fr: FunctionResult) -> (
    Seq<(Seq<char>, (u32, u32, u32, u32))>,
    Seq<(Seq<char>, (u32, u32, u32, u32))>,
    Seq<(Seq<char>, (u32, u32, u32, u32))>,
) {
    (fr.declarations_spec(), fr.definitions_spec(), fr.calls_spec())
}

/// The gathered map as plain values, keyed by symbol name.
pub open spec fn ir_view(v: Seq<(String, FunctionResult)>) -> Seq<
    (
        Seq<char>,
        (
            Seq<(Seq<char>, (u32, u32, u32, u32))>,
            Seq<(Seq<char>, (u32, u32, u32, u32))>,
            Seq<(Seq<char>, (u32, u32, u32, u32))>,
        ),
    ),
> {
    v.map_values(|p: (String, FunctionResult)| (p.0@, fr_view(p.1)))
}

/// The site joins the list its kind names, once.
pub open spec fn site_added(
    frv: (
        Seq<(Seq<char>, (u32, u32, u32, u32))>,
        Seq<(Seq<char>, (u32, u32, u32, u32))>,
        Seq<(Seq<char>, (u32, u32, u32, u32))>,
    ),
    x: (Seq<char>, (u32, u32, u32, u32)),
    which: FunctionSite,
) -> (
    Seq<(Seq<char>, (u32, u32, u32, u32))>,
    Seq<(Seq<char>, (u32, u32, u32, u32))>,
    Seq<(Seq<char>, (u32, u32, u32, u32))>,
) {
    match which {
        FunctionSite::Declaration => (add_site(frv.0, x), frv.1, frv.2),
        FunctionSite::Definition => (frv.0, add_site(frv.1, x), frv.2),
        FunctionSite::Call => (frv.0, frv.1, add_site(frv.2, x)),
    }
}

/// How one recorded site changes the gathered map: the symbol's entry
/// gains the site in the list its kind names, or a fresh entry holding
/// just that site is appended.
pub open spec fn site_recorded(
    v: Seq<
        (
            Seq<char>,
            (
                Seq<(Seq<char>, (u32, u32, u32, u32))>,
                Seq<(Seq<char>, (u32, u32, u32, u32))>,
                Seq<(Seq<char>, (u32, u32, u32, u32))>,
            ),
        ),
    >,
    v2: Seq<
        (
            Seq<char>,
            (
                Seq<(Seq<char>, (u32, u32, u32, u32))>,
                Seq<(Seq<char>, (u32, u32, u32, u32))>,
                Seq<(Seq<char>, (u32, u32, u32, u32))>,
            ),
        ),
    >,
    usr: Seq<char>,
    x: (Seq<char>, (u32, u32, u32, u32)),
    which: FunctionSite,
) -> bool {
    match lookup_chars(v, usr) {
        Some(frv) => exists|j: int|
            0 <= j < v.len() && (#[trigger] v[j]).0 == usr && v2 == v.update(
                j,
                (usr, site_added(frv, x, which)),
            ),
        None => v2 == v.push(
            (usr, site_added((Seq::empty(), Seq::empty(), Seq::empty()), x, which)),
        ),
    }
}

/// The gathered functions, keyed by their stable symbol name.
pub struct IndexResult {
    functions: Vec<(String, FunctionResult)>,
}

impl IndexResult {
    /// The symbol names in first-seen order.
    pub closed spec fn keys_spec(&self) -> Seq<Seq<char>> {
        self.functions@.map_values(|p: (String, FunctionResult)| p.0@)
    }

    /// The gathered map as plain values.
    pub closed spec fn view_spec(&self) -> Seq<
        (
            Seq<char>,
            (
                Seq<(Seq<char>, (u32, u32, u32, u32))>,
                Seq<(Seq<char>, (u32, u32, u32, u32))>,
                Seq<(Seq<char>, (u32, u32, u32, u32))>,
            ),
        ),
    > {
        ir_view(self.functions@)
    }

    /// Each symbol has one entry.
    pub open spec fn wf(&self) -> bool {
        unique_keys_chars(self.view_spec())
    }

    pub fn new() -> (r: Self)
        ensures
            r.keys_spec() =~= Seq::<Seq<char>>::empty(),
            r.view_spec().len() == 0,
            r.wf(),
    {
        let r = IndexResult { functions: Vec::new() };
        proof {
            assert(r.keys_spec() =~= Seq::<Seq<char>>::empty());
        }
        r
    }

    /// How many functions were gathered.
    pub fn len(&self) -> (r: usize)
        ensures
            r == self.keys_spec().len(),
    {
        self.functions.len()
    }

    /// The gathered functions in first-seen order.
    pub fn get_functions(&self) -> (r: &Vec<(String, FunctionResult)>)
        ensures
            r@.map_values(|p: (String, FunctionResult)| p.0@) == self.keys_spec(),
            ir_view(r@) == self.view_spec(),
    {
        &self.functions
    }

    /// Records one site of one function, creating its entry on first
    /// sight. A site in a system header is ignored; an entity that is
    /// neither definition nor declaration is refused, untouched.
    pub fn add_function_site(
        &mut self,
        usr: &String,
        loc: FileLocation,
        is_definition: bool,
        is_declaration: bool,
        in_system_header: bool,
    ) -> (r: Result<(), IgrepError>)
        requires
            old(self).wf(),
        ensures
            final(self).wf(),
            in_system_header ==> r is Ok && final(self).view_spec() == old(self).view_spec(),
            !in_system_header && !is_definition && !is_declaration ==> r is Err
                && final(self).view_spec() == old(self).view_spec(),
            !in_system_header && (is_definition || is_declaration) ==> r is Ok
                && site_recorded(
                old(self).view_spec(),
                final(self).view_spec(),
                usr@,
                floc_view(&loc),
                if is_definition {
                    FunctionSite::Definition
                } else {
                    FunctionSite::Declaration
                },
            ),
    {
        if in_system_header {
            return Ok(());
        }
        match classify_function(is_definition, is_declaration) {
            Err(e) => Err(e),
            Ok(FunctionSite::Definition) => {
                self.record_site(usr, loc, FunctionSite::Definition);
                Ok(())
            },
            Ok(FunctionSite::Declaration) => {
                self.record_site(usr, loc, FunctionSite::Declaration);
                Ok(())
            },
            Ok(FunctionSite::Call) => Ok(()),
        }
    }

    /// Records one call of one function, creating its entry on first
    /// sight. Only calls that resolve to a function declaration are
    /// handed in; the caller screens the rest out.
    pub fn add_function_call(&mut self, usr: &String, loc: FileLocation)
        requires
            old(self).wf(),
        ensures
            final(self).wf(),
            site_recorded(
                old(self).view_spec(),
                final(self).view_spec(),
                usr@,
                floc_view(&loc),
                FunctionSite::Call,
            ),
    {
        self.record_site(usr, loc, FunctionSite::Call);
    }

    /// Records one site under its symbol, creating the entry on first
    /// sight.
    fn record_site(&mut self, usr: &String, loc: FileLocation, which: FunctionSite)
        requires
            old(self).wf(),
        ensures
            final(self).wf(),
            site_recorded(
                old(self).view_spec(),
                final(self).view_spec(),
                usr@,
                floc_view(&loc),
                which,
            ),
    {
        let ghost before = self.view_spec();
        let ghost x = floc_view(&loc);
        let mut k: usize = 0;
        let n = self.functions.len();
        while k < n
            invariant
                0 <= k <= n,
                n == self.functions@.len(),
                before == old(self).view_spec(),
                before == self.view_spec(),
                before.len() == self.functions@.len(),
                unique_keys_chars(before),
                x == floc_view(&loc),
                forall|a: int| 0 <= a < k ==> (#[trigger] before[a]).0 != usr@,
            decreases n - k,
        {
            if self.functions[k].0.eq(usr) {
                proof {
                    assert(before[k as int].0 == usr@);
                    crate::assoc::lemma_lookup_chars_unique(before, k as int);
                }
                let ghost funcs0 = self.functions@;
                let mut entry = self.functions.remove(k);
                let ghost frv = fr_view(entry.1);
                proof {
                    assert(entry == funcs0[k as int]);
                    assert(frv == before[k as int].1);
                    assert(entry.0@ == usr@);
                }
                match which {
                    FunctionSite::Declaration => entry.1.add_declaration(loc),
                    FunctionSite::Definition => entry.1.add_definition(loc),
                    FunctionSite::Call => entry.1.add_call(loc),
                }
                proof {
                    assert(fr_view(entry.1) == site_added(frv, x, which));
                }
                self.functions.insert(k, entry);
                proof {
                    assert(self.functions@ =~= funcs0.update(k as int, (entry.0, entry.1)));
                    assert(self.view_spec() =~= before.update(
                        k as int,
                        (usr@, site_added(frv, x, which)),
                    ));
                    assert(lookup_chars(before, usr@) == Some(frv));
                    assert forall|a: int, b: int|
                        0 <= a < b < self.view_spec().len() implies self.view_spec()[a].0
                        != self.view_spec()[b].0 by {
                        assert(before[a].0 != before[b].0);
                    }
                }
                return ;
            }
            k += 1;
        }
        proof {
            crate::assoc::lemma_lookup_chars_characterized(before, usr@);
            assert(lookup_chars(before, usr@) is None);
        }
        let mut fresh = FunctionResult::new();
        let ghost frv0 = fr_view(fresh);
        proof {
            assert(frv0 == (
                Seq::<(Seq<char>, (u32, u32, u32, u32))>::empty(),
                Seq::<(Seq<char>, (u32, u32, u32, u32))>::empty(),
                Seq::<(Seq<char>, (u32, u32, u32, u32))>::empty(),
            ));
        }
        match which {
            FunctionSite::Declaration => fresh.add_declaration(loc),
            FunctionSite::Definition => fresh.add_definition(loc),
            FunctionSite::Call => fresh.add_call(loc),
        }
        proof {
            assert(fr_view(fresh) == site_added(frv0, x, which));
        }
        self.functions.push((usr.clone(), fresh));
        proof {
            assert(self.view_spec() =~= before.push((usr@, site_added(frv0, x, which))));
            assert forall|a: int, b: int|
                0 <= a < b < self.view_spec().len() implies self.view_spec()[a].0
                != self.view_spec()[b].0 by {
                if b < before.len() {
                    assert(before[a].0 != before[b].0);
                } else {
                    assert(before[a].0 != usr@);
                }
            }
        }
    }
}

/// One place a symbol is seen, for the viewer.
pub struct FileLineLink {
    pub file: String,
    pub line: u32,
}

/// The viewer record of one symbol.
pub struct SymbolJson {
    pub name: String,
    pub definition: Vec<FileLineLink>,
    pub declaration: Vec<FileLineLink>,
    pub call: Vec<FileLineLink>,
}

/// All symbols, for the viewer.
pub struct SymbolsJson {
    pub symbols: Vec<SymbolJson>,
}

/// A token class label of the viewer.
pub struct Class(pub String);

/// A token anchor of the viewer.
pub struct Id(pub String);

/// One rendered token of a line.
pub struct Token {
    pub token: String,
    pub classes: Vec<Class>,
    pub id: Option<Id>,
    pub url: Option<String>,
}

/// One rendered line.
pub struct LineJson {
    pub tokens: Vec<Token>,
}

/// The rendered lines of one file.
pub struct Content {
    pub content: Vec<LineJson>,
}

/// The viewer record of one file.
pub struct FileJson {
    pub path: String,
    pub content: Content,
}

/// The view of a link list.
pub open spec fn links_view(v: Seq<FileLineLink>) -> Seq<(Seq<char>, u32)> {
    v.map_values(|x: FileLineLink| (x.file@, x.line))
}

/// Order of viewer links: by file bytes, then by line.
pub open spec fn link_le(a: (Seq<char>, u32), b: (Seq<char>, u32)) -> bool {
    ||| crate::index::lex_lt(vstd::utf8::encode_utf8(a.0), vstd::utf8::encode_utf8(b.0))
    ||| (vstd::utf8::encode_utf8(a.0) == vstd::utf8::encode_utf8(b.0) && a.1 <= b.1)
}

/// Sorted links.
pub open spec fn links_sorted(v: Seq<(Seq<char>, u32)>) -> bool {
    forall|i: int, j: int| 0 <= i < j < v.len() ==> link_le(#[trigger] v[i], #[trigger] v[j])
}

/// Whether `a` comes no later than `b` in viewer order.
fn link_le_exec(a: &FileLineLink, b: &FileLineLink) -> (r: bool)
    ensures
        r == link_le((a.file@, a.line), (b.file@, b.line)),
{
    let ab = a.file.as_str().as_bytes();
    let bb = b.file.as_str().as_bytes();
    if crate::index::bytes_lt(ab, bb) {
        true
    } else if crate::index::bytes_eq(ab, bb) {
        a.line <= b.line
    } else {
        false
    }
}

/// Inserts a link keeping the list sorted; equals go after their kin.
fn insert_link(out: &mut Vec<FileLineLink>, x: FileLineLink)
    requires
        links_sorted(links_view(old(out)@)),
    ensures
        links_sorted(links_view(final(out)@)),
        links_view(final(out)@).len() == links_view(old(out)@).len() + 1,
        forall|p: (Seq<char>, u32)|
            #![trigger links_view(final(out)@).contains(p)]
            links_view(final(out)@).contains(p) <==> (links_view(old(out)@).contains(p) || p == (
                x.file@,
                x.line,
            )),
{
    let ghost before = links_view(old(out)@);
    let ghost xv = (x.file@, x.line);
    let mut k: usize = 0;
    while k < out.len()
        invariant
            out@ == old(out)@,
            before == links_view(out@),
            links_sorted(before),
            before.len() == out@.len(),
            xv == (x.file@, x.line),
            0 <= k <= out@.len(),
            forall|j: int| 0 <= j < k ==> link_le(#[trigger] before[j], xv),
        decreases out@.len() - k,
    {
        if !link_le_exec(&out[k], &x) {
            proof {
                lemma_link_le_total(before[k as int], xv);
            }
            out.insert(k, x);
            proof {
                assert(links_view(out@) =~= before.insert(k as int, xv));
                lemma_links_insert(before, xv, k as int);
            }
            return ;
        }
        k += 1;
    }
    out.push(x);
    proof {
        assert(links_view(out@) =~= before.push(xv));
        assert(before.push(xv) =~= before.insert(before.len() as int, xv));
        lemma_links_insert(before, xv, before.len() as int);
    }
}

/// The viewer order is total.
proof fn lemma_link_le_total(a: (Seq<char>, u32), b: (Seq<char>, u32))
    ensures
        link_le(a, b) || link_le(b, a),
{
    crate::index::lemma_lex_lt_total(
        vstd::utf8::encode_utf8(a.0),
        vstd::utf8::encode_utf8(b.0),
    );
}

/// Inserting at a position bounded by the order keeps the list sorted
/// and adds the one member.
proof fn lemma_links_insert(before: Seq<(Seq<char>, u32)>, xv: (Seq<char>, u32), k: int)
    requires
        links_sorted(before),
        0 <= k <= before.len(),
        forall|j: int| 0 <= j < k ==> link_le(#[trigger] before[j], xv),
        k < before.len() ==> link_le(xv, before[k]),
    ensures
        links_sorted(before.insert(k, xv)),
        before.insert(k, xv).len() == before.len() + 1,
        forall|p: (Seq<char>, u32)|
            #![trigger before.insert(k, xv).contains(p)]
            before.insert(k, xv).contains(p) <==> (before.contains(p) || p == xv),
{
    let after = before.insert(k, xv);
    assert forall|i: int, j: int| 0 <= i < j < after.len() implies link_le(
        #[trigger] after[i],
        #[trigger] after[j],
    ) by {
        if i < k && j == k {
            assert(after[i] == before[i]);
        } else if i == k && j > k {
            assert(after[j] == before[j - 1]);
            if k < before.len() {
                if j - 1 == k {
                } else {
                    lemma_link_le_trans(xv, before[k], before[j - 1]);
                }
            }
        } else if i < k && j > k {
            assert(after[i] == before[i] && after[j] == before[j - 1]);
            if j - 1 == i {
                lemma_link_le_refl(before[i]);
            } else {
                assert(link_le(before[i], before[j - 1]));
            }
        } else if i > k {
            assert(after[i] == before[i - 1] && after[j] == before[j - 1]);
        } else {
            assert(after[i] == before[i] && after[j] == before[j]);
        }
    }
    assert forall|p: (Seq<char>, u32)|
        after.contains(p) <==> (before.contains(p) || p == xv) by {
        if after.contains(p) {
            let i = choose|i: int| 0 <= i < after.len() && after[i] == p;
            if i < k {
                assert(before[i] == p);
            } else if i > k {
                assert(before[i - 1] == p);
            }
        }
        if before.contains(p) {
            let i = choose|i: int| 0 <= i < before.len() && before[i] == p;
            if i < k {
                assert(after[i] == p);
            } else {
                assert(after[i + 1] == p);
            }
        }
        if p == xv {
            assert(after[k] == p);
        }
    }
}

proof fn lemma_link_le_refl(a: (Seq<char>, u32))
    ensures
        link_le(a, a),
{
}

proof fn lemma_link_le_trans(a: (Seq<char>, u32), b: (Seq<char>, u32), c: (Seq<char>, u32))
    ensures
        link_le(a, b) && link_le(b, c) ==> link_le(a, c),
{
    crate::index::lemma_lex_lt_trans(
        vstd::utf8::encode_utf8(a.0),
        vstd::utf8::encode_utf8(b.0),
        vstd::utf8::encode_utf8(c.0),
    );
}

/// Builds the sorted viewer links of a location list.
fn links_of(locs: &Vec<FileLocation>) -> (r: Vec<FileLineLink>)
    ensures
        links_sorted(links_view(r@)),
        links_view(r@).len() == locs@.len(),
        forall|p: (Seq<char>, u32)|
            #![trigger links_view(r@).contains(p)]
            links_view(r@).contains(p) <==> locs_view(locs@).map_values(
                |q: (Seq<char>, (u32, u32, u32, u32))| (q.0, q.1.0),
            ).contains(p),
{
    let ghost goal = locs_view(locs@).map_values(
        |q: (Seq<char>, (u32, u32, u32, u32))| (q.0, q.1.0),
    );
    let mut out: Vec<FileLineLink> = Vec::new();
    let mut i: usize = 0;
    proof {
        assert(links_view(out@) =~= Seq::<(Seq<char>, u32)>::empty());
        assert(goal.take(0) =~= Seq::<(Seq<char>, u32)>::empty());
    }
    while i < locs.len()
        invariant
            goal == locs_view(locs@).map_values(
                |q: (Seq<char>, (u32, u32, u32, u32))| (q.0, q.1.0),
            ),
            goal.len() == locs@.len(),
            0 <= i <= locs@.len(),
            links_sorted(links_view(out@)),
            links_view(out@).len() == i,
            forall|p: (Seq<char>, u32)|
                #![trigger links_view(out@).contains(p)]
                links_view(out@).contains(p) <==> goal.take(i as int).contains(p),
        decreases locs@.len() - i,
    {
        let file = String::from_str(locs[i].file());
        let line = locs[i].loc().line();
        let x = FileLineLink { file, line };
        proof {
            assert(goal[i as int] == (locs@[i as int].file_spec(), locs@[i as int].loc_spec().0));
            assert((x.file@, x.line) == goal[i as int]);
        }
        insert_link(&mut out, x);
        proof {
            assert forall|p: (Seq<char>, u32)|
                links_view(out@).contains(p) <==> goal.take(i + 1).contains(p) by {
                assert(goal.take(i + 1) =~= goal.take(i as int).push(goal[i as int]));
                if goal.take(i + 1).contains(p) {
                    let w = choose|w: int|
                        0 <= w < goal.take(i + 1).len() && #[trigger] goal.take(i + 1)[w] == p;
                    if w < i {
                        assert(goal.take(i as int).contains(p));
                    } else {
                        assert(p == goal[i as int]);
                    }
                }
                if goal.take(i as int).contains(p) {
                    let w = choose|w: int|
                        0 <= w < goal.take(i as int).len() && goal.take(i as int)[w] == p;
                    assert(goal.take(i + 1)[w] == p);
                }
                if p == goal[i as int] {
                    assert(goal.take(i + 1)[i as int] == p);
                }
            }
        }
        i += 1;
    }
    proof {
        assert(goal.take(i as int) =~= goal);
    }
    out
}

/// The viewer links render exactly the given sites: sorted by file then
/// line, one link per site, holding exactly the sites' file-line pairs.
pub open spec fn links_match(
    links: Seq<FileLineLink>,
    locs: Seq<(Seq<char>, (u32, u32, u32, u32))>,
) -> bool {
    &&& links_sorted(links_view(links))
    &&& links_view(links).len() == locs.len()
    &&& forall|p: (Seq<char>, u32)|
        #![trigger links_view(links).contains(p)]
        links_view(links).contains(p) <==> locs.map_values(
            |q: (Seq<char>, (u32, u32, u32, u32))| (q.0, q.1.0),
        ).contains(p)
}

impl SymbolsJson {
    /// Renders each gathered function as a viewer record: same order as
    /// gathered, each link list sorted by file then line.
    pub fn from_index(index: &IndexResult) -> (r: Result<SymbolsJson, IgrepError>)
        ensures
            r matches Ok(sj) ==> {
                &&& sj.symbols@.len() == index.view_spec().len()
                &&& forall|k: int|
                    0 <= k < sj.symbols@.len() ==> (#[trigger] sj.symbols@[k]).name@
                        == index.view_spec()[k].0
                &&& forall|k: int|
                    0 <= k < sj.symbols@.len() ==> links_match(
                        (#[trigger] sj.symbols@[k]).declaration@,
                        index.view_spec()[k].1.0,
                    )
                &&& forall|k: int|
                    0 <= k < sj.symbols@.len() ==> links_match(
                        (#[trigger] sj.symbols@[k]).definition@,
                        index.view_spec()[k].1.1,
                    )
                &&& forall|k: int|
                    0 <= k < sj.symbols@.len() ==> links_match(
                        (#[trigger] sj.symbols@[k]).call@,
                        index.view_spec()[k].1.2,
                    )
            },
    {
        let mut symbols: Vec<SymbolJson> = Vec::new();
        let fns = index.get_functions();
        let ghost iv = index.view_spec();
        let mut k: usize = 0;
        while k < fns.len()
            invariant
                iv == index.view_spec(),
                ir_view(fns@) == iv,
                iv.len() == fns@.len(),
                0 <= k <= fns@.len(),
                symbols@.len() == k,
                forall|j: int| 0 <= j < k ==> (#[trigger] symbols@[j]).name@ == iv[j].0,
                forall|j: int|
                    0 <= j < k ==> links_match((#[trigger] symbols@[j]).declaration@, iv[j].1.0),
                forall|j: int|
                    0 <= j < k ==> links_match((#[trigger] symbols@[j]).definition@, iv[j].1.1),
                forall|j: int|
                    0 <= j < k ==> links_match((#[trigger] symbols@[j]).call@, iv[j].1.2),
            decreases fns@.len() - k,
        {
            proof {
                assert(iv[k as int] == (fns@[k as int].0@, fr_view(fns@[k as int].1)));
            }
            let name = fns[k].0.clone();
            let definition = links_of(fns[k].1.definitions());
            let declaration = links_of(fns[k].1.declarations());
            let call = links_of(fns[k].1.calls());
            symbols.push(SymbolJson { name, definition, declaration, call });
            k += 1;
        }
        Ok(SymbolsJson { symbols })
    }
}

} // verus!
