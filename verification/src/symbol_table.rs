//! The compiler's interning table: every identifier and string literal is
//! stored once and referred to by a `SymbolIndex`. Entries are either plain
//! text or a "combo" of two earlier entries (used for namespaced names and
//! generic suffixes, displayed as `left::right`).
use vstd::prelude::*;
use crate::text::str_equal;

verus! {

/// An index into a `SymbolTable`.
#[derive(Debug, Clone, Copy, PartialEq, Eq, Structural, Hash, PartialOrd, Ord)]
pub struct SymbolIndex(pub usize);

impl SymbolIndex {
    /// An index that no table ever hands out.
    pub fn decoy() -> (r: SymbolIndex)
        ensures
            r.0 == usize::MAX,
    {
        SymbolIndex(usize::MAX)
    }
}

/// One stored entry.
pub enum SymbolTableValue {
    String(String),
    Combo(SymbolIndex, SymbolIndex),
}

/// The mathematical value of an entry.
pub enum SymbolValue {
    Text(Seq<char>),
    Combo(nat, nat),
}

impl SymbolTableValue {
    pub open spec fn view(&self) -> SymbolValue {
        match self {
            SymbolTableValue::String(s) => SymbolValue::Text(s@),
            SymbolTableValue::Combo(a, b) => SymbolValue::Combo(a.0 as nat, b.0 as nat),
        }
    }
}

/// The marker that opens a generic argument list.
pub open spec fn generic_start_text() -> Seq<char> {
    seq!['@', '<']
}

/// The marker that closes a generic argument list.
pub open spec fn generic_end_text() -> Seq<char> {
    seq!['>', '@']
}

/// The separator shown between the two halves of a combo entry.
pub open spec fn combo_separator() -> Seq<char> {
    seq![':', ':']
}

/// Every combo refers to two strictly earlier entries, the two generic
/// markers sit at indices 0 and 1, and no entry is stored twice.
pub open spec fn entries_wf(e: Seq<SymbolValue>) -> bool {
    &&& e.len() >= 2
    &&& e[0] == SymbolValue::Text(generic_start_text())
    &&& e[1] == SymbolValue::Text(generic_end_text())
    &&& forall|i: int|
        #![trigger e[i]]
        0 <= i < e.len() ==> (e[i] matches SymbolValue::Combo(a, b) ==> a < i && b < i)
    &&& forall|i: int, j: int|
        #![trigger e[i], e[j]]
        0 <= i < j < e.len() ==> e[i] != e[j]
}

/// The first index holding exactly `v`, if any.
pub open spec fn first_index_of(e: Seq<SymbolValue>, v: SymbolValue) -> Option<nat>
    decreases e.len(),
{
    if e.len() == 0 {
        None
    } else {
        match first_index_of(e.drop_last(), v) {
            Some(i) => Some(i),
            None => if e.last() == v {
                Some((e.len() - 1) as nat)
            } else {
                None
            },
        }
    }
}

/// What `add` and `add_combo` do: return the existing index of `v`, or
/// append `v` and return its new index.
pub open spec fn spec_intern(e: Seq<SymbolValue>, v: SymbolValue) -> (Seq<SymbolValue>, nat) {
    match first_index_of(e, v) {
        Some(i) => (e, i),
        None => (e.push(v), e.len()),
    }
}

/// The text that `get` displays for index `i`.
pub open spec fn spec_text(e: Seq<SymbolValue>, i: nat) -> Seq<char>
    decreases i,
{
    if i < e.len() {
        match e[i as int] {
            SymbolValue::Text(s) => s,
            SymbolValue::Combo(a, b) => if a < i && b < i {
                spec_text(e, a) + combo_separator() + spec_text(e, b)
            } else {
                Seq::empty()
            },
        }
    } else {
        Seq::empty()
    }
}

/// `find_root`: the leftmost text entry reached through combos, together
/// with the right half of the innermost combo whose left half is text.
pub open spec fn spec_find_root(e: Seq<SymbolValue>, i: nat) -> (nat, Option<nat>)
    decreases i,
{
    if i < e.len() {
        match e[i as int] {
            SymbolValue::Text(_) => (i, None),
            SymbolValue::Combo(a, b) => if a < e.len() && e[a as int] is Text {
                (a, Some(b))
            } else if a < i {
                spec_find_root(e, a)
            } else {
                (i, None)
            },
        }
    } else {
        (i, None)
    }
}

/// The walk that `get_name_without_generics` makes: starting from `base`,
/// keep gluing on the roots of the remaining right halves until the
/// generic start marker is met. `None` when a needed combo is missing.
pub open spec fn spec_strip_generics(e: Seq<SymbolValue>, base: nat, left: Option<nat>) -> Option<nat>
    decreases (match left { Some(l) => l + 1, None => 0nat }),
{
    match left {
        None => Some(base),
        Some(l) => {
            let (root, rest) = spec_find_root(e, l);
            if root == 0 {
                Some(base)
            } else {
                match first_index_of(e, SymbolValue::Combo(base, root)) {
                    None => None,
                    Some(c) => match rest {
                        None => spec_strip_generics(e, c, None),
                        Some(r) => if r < l {
                            spec_strip_generics(e, c, Some(r))
                        } else {
                            None
                        },
                    },
                }
            }
        }
    }
}

/// The interning table.
pub struct SymbolTable {
    vec: Vec<SymbolTableValue>,
}

impl View for SymbolTable {
    type V = Seq<SymbolValue>;

    closed spec fn view(&self) -> Seq<SymbolValue> {
        self.vec@.map_values(|v: SymbolTableValue| v.view())
    }
}

pub proof fn lemma_first_index_of(e: Seq<SymbolValue>, v: SymbolValue)
    ensures
        match first_index_of(e, v) {
            Some(i) => i < e.len() && e[i as int] == v && forall|j: int|
                0 <= j < i ==> e[j] != v,
            None => forall|j: int| 0 <= j < e.len() ==> e[j] != v,
        },
    decreases e.len(),
{
    if e.len() > 0 {
        lemma_first_index_of(e.drop_last(), v);
        assert forall|j: int| 0 <= j < e.len() - 1 implies e.drop_last()[j] == e[j] by {}
    }
}

proof fn lemma_first_index_unique(e: Seq<SymbolValue>, i: int)
    requires
        entries_wf(e),
        0 <= i < e.len(),
    ensures
        first_index_of(e, e[i]) == Some(i as nat),
{
    lemma_first_index_of(e, e[i]);
    match first_index_of(e, e[i]) {
        Some(k) => {
            if (k as int) < i {
                assert(e[k as int] != e[i]);
            }
        },
        None => {},
    }
}

proof fn lemma_intern_wf(e: Seq<SymbolValue>, v: SymbolValue)
    requires
        entries_wf(e),
        v matches SymbolValue::Combo(a, b) ==> a < e.len() && b < e.len(),
    ensures
        entries_wf(spec_intern(e, v).0),
        spec_intern(e, v).1 < spec_intern(e, v).0.len(),
        spec_intern(e, v).0[spec_intern(e, v).1 as int] == v,
        spec_intern(e, v).0.len() >= e.len(),
        forall|i: int| 0 <= i < e.len() ==> #[trigger] spec_intern(e, v).0[i] == e[i],
{
    lemma_first_index_of(e, v);
    let n = spec_intern(e, v).0;
    if first_index_of(e, v) is None {
        assert forall|i: int, j: int| 0 <= i < j < n.len() implies #[trigger] n[i] != #[trigger] n[j] by {
            if j < e.len() {
                assert(e[i] != e[j]);
            }
        }
        assert forall|i: int| 0 <= i < n.len() implies (#[trigger] n[i] matches SymbolValue::Combo(a, b)
            ==> a < i && b < i) by {
            if i < e.len() {
                assert(n[i] == e[i]);
            }
        }
    }
}

/// The text of an entry only depends on the entries at or below it, so
/// appending leaves every existing text unchanged.
proof fn lemma_text_stable(e: Seq<SymbolValue>, f: Seq<SymbolValue>, i: nat)
    requires
        i < e.len() <= f.len(),
        forall|k: int| 0 <= k < e.len() ==> #[trigger] f[k] == e[k],
    ensures
        spec_text(f, i) == spec_text(e, i),
    decreases i,
{
    match e[i as int] {
        SymbolValue::Text(_) => {},
        SymbolValue::Combo(a, b) => {
            if a < i && b < i {
                lemma_text_stable(e, f, a);
                lemma_text_stable(e, f, b);
            }
        },
    }
}

impl SymbolTable {
    /// The table's invariant.
    pub open spec fn wf(&self) -> bool {
        entries_wf(self@)
    }

    /// The number of entries.
    pub fn len(&self) -> (r: usize)
        ensures
            r == self@.len(),
    {
        self.vec.len()
    }

    /// A table holding only the two generic markers.
    pub fn new() -> (r: SymbolTable)
        ensures
            r.wf(),
            r@ == seq![SymbolValue::Text(generic_start_text()), SymbolValue::Text(generic_end_text())],
    {
        let a = String::from_str("@<");
        let b = String::from_str(">@");
        proof {
            reveal_strlit("@<");
            reveal_strlit(">@");
            assert(a@ =~= generic_start_text());
            assert(b@ =~= generic_end_text());
        }
        let mut vec: Vec<SymbolTableValue> = Vec::new();
        vec.push(SymbolTableValue::String(a));
        vec.push(SymbolTableValue::String(b));
        let r = SymbolTable { vec };
        assert(r@ =~= seq![SymbolValue::Text(generic_start_text()), SymbolValue::Text(generic_end_text())]);
        r
    }

    /// Interns `string`: returns the index of the text entry equal to it,
    /// appending one first if there is none.
    pub fn add(&mut self, string: String) -> (r: SymbolIndex)
        requires
            old(self).wf(),
        ensures
            final(self).wf(),
            (final(self)@, r.0 as nat) == spec_intern(old(self)@, SymbolValue::Text(string@)),
    {
        let ghost target = SymbolValue::Text(string@);
        let n = self.vec.len();
        let mut i: usize = 0;
        while i < n
            invariant
                n == self.vec.len(),
                i <= n,
                self.wf(),
                target == SymbolValue::Text(string@),
                forall|j: int| 0 <= j < i ==> self@[j] != target,
            decreases n - i,
        {
            proof {
                assert(self@[i as int] == self.vec@[i as int].view());
            }
            let found = match &self.vec[i] {
                SymbolTableValue::String(v) => {
                    let eq = string_equal(v, &string);
                    assert(self.vec@[i as int] == SymbolTableValue::String(*v));
                    eq
                },
                SymbolTableValue::Combo(_, _) => false,
            };
            if found {
                proof {
                    assert(self@[i as int] == target);
                    lemma_first_index_unique(self@, i as int);
                }
                return SymbolIndex(i);
            }
            i = i + 1;
        }
        proof {
            lemma_first_index_of(self@, target);
            lemma_intern_wf(self@, target);
        }
        let ghost before = self@;
        self.vec.push(SymbolTableValue::String(string));
        assert(self@ =~= before.push(target));
        SymbolIndex(n)
    }

    /// Interns the combo of two existing entries.
    pub fn add_combo(&mut self, one: SymbolIndex, two: SymbolIndex) -> (r: SymbolIndex)
        requires
            old(self).wf(),
            one.0 < old(self)@.len(),
            two.0 < old(self)@.len(),
        ensures
            final(self).wf(),
            (final(self)@, r.0 as nat) == spec_intern(
                old(self)@,
                SymbolValue::Combo(one.0 as nat, two.0 as nat),
            ),
    {
        let ghost target = SymbolValue::Combo(one.0 as nat, two.0 as nat);
        let n = self.vec.len();
        let mut i: usize = 0;
        while i < n
            invariant
                n == self.vec.len(),
                i <= n,
                self.wf(),
                one.0 < n,
                two.0 < n,
                target == SymbolValue::Combo(one.0 as nat, two.0 as nat),
                forall|j: int| 0 <= j < i ==> self@[j] != target,
            decreases n - i,
        {
            proof {
                assert(self@[i as int] == self.vec@[i as int].view());
            }
            let found = match &self.vec[i] {
                SymbolTableValue::String(_) => false,
                SymbolTableValue::Combo(v1, v2) => v1.0 == one.0 && v2.0 == two.0,
            };
            if found {
                proof {
                    assert(self@[i as int] == target);
                    lemma_first_index_unique(self@, i as int);
                }
                return SymbolIndex(i);
            }
            i = i + 1;
        }
        proof {
            lemma_first_index_of(self@, target);
            lemma_intern_wf(self@, target);
        }
        let ghost before = self@;
        self.vec.push(SymbolTableValue::Combo(one, two));
        assert(self@ =~= before.push(target));
        SymbolIndex(n)
    }

    /// The display text of an entry; combos show as `left::right`.
    pub fn get(&self, index: &SymbolIndex) -> (r: String)
        requires
            self.wf(),
            index.0 < self@.len(),
        ensures
            r@ == spec_text(self@, index.0 as nat),
        decreases index.0,
    {
        match &self.vec[index.0] {
            SymbolTableValue::String(v) => {
                assert(self@[index.0 as int] == SymbolValue::Text(v@));
                v.clone()
            },
            SymbolTableValue::Combo(v1, v2) => {
                assert(self@[index.0 as int] == SymbolValue::Combo(v1.0 as nat, v2.0 as nat));
                let left = self.get(v1);
                let right = self.get(v2);
                proof {
                    reveal_strlit("::");
                }
                let s = left.concat("::");
                let s = s.concat(right.as_str());
                s
            },
        }
    }

    /// See `spec_find_root`.
    pub fn find_root(&self, index: SymbolIndex) -> (r: (SymbolIndex, Option<SymbolIndex>))
        requires
            self.wf(),
            index.0 < self@.len(),
        ensures
            r.0.0 as nat == spec_find_root(self@, index.0 as nat).0,
            r.1 matches Some(x) ==> spec_find_root(self@, index.0 as nat).1 == Some(x.0 as nat),
            r.1 is None ==> spec_find_root(self@, index.0 as nat).1 is None,
            r.0.0 < self@.len(),
            self@[r.0.0 as int] is Text,
            r.1 matches Some(x) ==> x.0 < index.0,
        decreases index.0,
    {
        match &self.vec[index.0] {
            SymbolTableValue::String(_) => (index, None),
            SymbolTableValue::Combo(v1, v2) => {
                assert(self@[index.0 as int] == SymbolValue::Combo(v1.0 as nat, v2.0 as nat));
                match &self.vec[v1.0] {
                    SymbolTableValue::String(_) => (*v1, Some(*v2)),
                    SymbolTableValue::Combo(_, _) => self.find_root(*v1),
                }
            },
        }
    }

    /// The index of an existing combo entry.
    pub fn find_combo(&self, v1: SymbolIndex, v2: SymbolIndex) -> (r: SymbolIndex)
        requires
            self.wf(),
            first_index_of(self@, SymbolValue::Combo(v1.0 as nat, v2.0 as nat)) is Some,
        ensures
            first_index_of(self@, SymbolValue::Combo(v1.0 as nat, v2.0 as nat)) == Some(r.0 as nat),
    {
        let ghost target = SymbolValue::Combo(v1.0 as nat, v2.0 as nat);
        proof {
            lemma_first_index_of(self@, target);
        }
        let n = self.vec.len();
        let mut i: usize = 0;
        while i < n
            invariant
                n == self.vec.len(),
                i <= n,
                self.wf(),
                first_index_of(self@, target) is Some,
                target == SymbolValue::Combo(v1.0 as nat, v2.0 as nat),
                forall|j: int| 0 <= j < i ==> self@[j] != target,
            decreases n - i,
        {
            proof {
                assert(self@[i as int] == self.vec@[i as int].view());
            }
            let found = match &self.vec[i] {
                SymbolTableValue::String(_) => false,
                SymbolTableValue::Combo(a, b) => a.0 == v1.0 && b.0 == v2.0,
            };
            if found {
                proof {
                    lemma_first_index_unique(self@, i as int);
                }
                return SymbolIndex(i);
            }
            i = i + 1;
        }
        SymbolIndex(0)
    }

    /// The index of the text entry equal to `val`, if there is one.
    pub fn find(&self, val: &str) -> (r: Option<SymbolIndex>)
        requires
            self.wf(),
        ensures
            match r {
                Some(i) => first_index_of(self@, SymbolValue::Text(val@)) == Some(i.0 as nat),
                None => first_index_of(self@, SymbolValue::Text(val@)) is None,
            },
    {
        let ghost target = SymbolValue::Text(val@);
        proof {
            lemma_first_index_of(self@, target);
        }
        let n = self.vec.len();
        let mut i: usize = 0;
        while i < n
            invariant
                n == self.vec.len(),
                i <= n,
                self.wf(),
                target == SymbolValue::Text(val@),
                forall|j: int| 0 <= j < i ==> self@[j] != target,
            decreases n - i,
        {
            proof {
                assert(self@[i as int] == self.vec@[i as int].view());
            }
            let found = match &self.vec[i] {
                SymbolTableValue::String(v) => str_equal(v.as_str(), val),
                SymbolTableValue::Combo(_, _) => false,
            };
            if found {
                proof {
                    lemma_first_index_unique(self@, i as int);
                }
                return Some(SymbolIndex(i));
            }
            i = i + 1;
        }
        proof {
            lemma_first_index_of(self@, target);
        }
        None
    }

    /// Strips the generic argument suffix from a (possibly namespaced)
    /// symbol, rebuilding the namespaced base name.
    pub fn get_name_without_generics(&self, symbol: SymbolIndex) -> (r: SymbolIndex)
        requires
            self.wf(),
            symbol.0 < self@.len(),
            spec_strip_generics(
                self@,
                spec_find_root(self@, symbol.0 as nat).0,
                spec_find_root(self@, symbol.0 as nat).1,
            ) is Some,
        ensures
            spec_strip_generics(
                self@,
                spec_find_root(self@, symbol.0 as nat).0,
                spec_find_root(self@, symbol.0 as nat).1,
            ) == Some(r.0 as nat),
            r.0 < self@.len(),
    {
        let (base0, left0) = self.find_root(symbol);
        let mut base_name = base0;
        let mut left = left0;
        let start = get_generic_args_symbol_start(self);
        loop
            invariant
                self.wf(),
                start.0 == 0,
                base_name.0 < self@.len(),
                left matches Some(l) ==> l.0 < self@.len(),
                spec_strip_generics(self@, base_name.0 as nat, match left {
                    Some(l) => Some(l.0 as nat),
                    None => None,
                }) == spec_strip_generics(
                    self@,
                    spec_find_root(self@, symbol.0 as nat).0,
                    spec_find_root(self@, symbol.0 as nat).1,
                ),
                spec_strip_generics(self@, base_name.0 as nat, match left {
                    Some(l) => Some(l.0 as nat),
                    None => None,
                }) is Some,
            decreases (match left { Some(l) => l.0 + 1, None => 0 }),
        {
            match left {
                None => {
                    return base_name;
                },
                Some(l) => {
                    let (root, root_excluded) = self.find_root(l);
                    if root.0 == start.0 {
                        return base_name;
                    }
                    proof {
                        lemma_first_index_of(self@, SymbolValue::Combo(base_name.0 as nat, root.0 as nat));
                    }
                    let next = self.find_combo(base_name, root);
                    base_name = next;
                    left = root_excluded;
                },
            }
        }
    }

    /// Interns `symbol` followed by the generic suffix of `generics`; with
    /// no generics the symbol is returned unchanged.
    pub fn add_generics(&mut self, symbol: SymbolIndex, generics: &[SymbolIndex]) -> (r: SymbolIndex)
        requires
            old(self).wf(),
            symbol.0 < old(self)@.len(),
            forall|i: int| 0 <= i < generics@.len() ==> #[trigger] generics@[i].0 < old(self)@.len(),
        ensures
            final(self).wf(),
            generics@.len() == 0 ==> final(self)@ == old(self)@ && r == symbol,
            generics@.len() > 0 ==> {
                let (e1, suffix) = spec_generic_suffix(old(self)@, generics@.map_values(|g: SymbolIndex| g.0 as nat));
                (final(self)@, r.0 as nat) == spec_intern(e1, SymbolValue::Combo(symbol.0 as nat, suffix))
            },
    {
        if generics.len() == 0 {
            return symbol;
        }
        let generics_symbol = generic_declaration_suffix(self, generics);
        proof {
            lemma_generic_suffix(old(self)@, generics@.map_values(|g: SymbolIndex| g.0 as nat));
        }
        self.add_combo(symbol, generics_symbol)
    }
}

/// `==` on two strings.
fn string_equal(a: &String, b: &String) -> (r: bool)
    ensures
        r == (a@ == b@),
{
    *a == *b
}

/// The index of the generic start marker (always 0).
pub fn get_generic_args_symbol_start(symbol_table: &SymbolTable) -> (r: SymbolIndex)
    requires
        symbol_table.wf(),
    ensures
        r.0 == 0,
{
    proof {
        reveal_strlit("@<");
        assert("@<"@ =~= generic_start_text());
        lemma_first_index_unique(symbol_table@, 0);
    }
    let r = symbol_table.find("@<");
    match r {
        Some(v) => v,
        None => SymbolIndex(0),
    }
}

/// The index of the generic end marker (always 1).
fn get_generic_args_symbol_end(symbol_table: &SymbolTable) -> (r: SymbolIndex)
    requires
        symbol_table.wf(),
    ensures
        r.0 == 1,
{
    proof {
        reveal_strlit(">@");
        assert(">@"@ =~= generic_end_text());
        lemma_first_index_unique(symbol_table@, 1);
    }
    let r = symbol_table.find(">@");
    match r {
        Some(v) => v,
        None => SymbolIndex(1),
    }
}

/// The chain of combos that `generic_declaration_suffix` interns:
/// `((((start, g0), g1), ...), end)`; returns the table and the final index.
pub open spec fn spec_generic_suffix(e: Seq<SymbolValue>, gs: Seq<nat>) -> (Seq<SymbolValue>, nat) {
    let (e1, acc) = spec_generic_chain(e, gs);
    spec_intern(e1, SymbolValue::Combo(acc, 1))
}

pub open spec fn spec_generic_chain(e: Seq<SymbolValue>, gs: Seq<nat>) -> (Seq<SymbolValue>, nat)
    decreases gs.len(),
{
    if gs.len() == 0 {
        (e, 0)
    } else {
        let (e1, acc) = spec_generic_chain(e, gs.drop_last());
        spec_intern(e1, SymbolValue::Combo(acc, gs.last()))
    }
}

proof fn lemma_generic_chain(e: Seq<SymbolValue>, gs: Seq<nat>)
    requires
        entries_wf(e),
        forall|i: int| 0 <= i < gs.len() ==> #[trigger] gs[i] < e.len(),
    ensures
        entries_wf(spec_generic_chain(e, gs).0),
        spec_generic_chain(e, gs).1 < spec_generic_chain(e, gs).0.len(),
        spec_generic_chain(e, gs).0.len() >= e.len(),
        forall|i: int| 0 <= i < e.len() ==> #[trigger] spec_generic_chain(e, gs).0[i] == e[i],
    decreases gs.len(),
{
    if gs.len() > 0 {
        let p = gs.drop_last();
        assert forall|i: int| 0 <= i < p.len() implies #[trigger] p[i] < e.len() by {
            assert(p[i] == gs[i]);
        }
        lemma_generic_chain(e, p);
        let (e1, acc) = spec_generic_chain(e, p);
        lemma_intern_wf(e1, SymbolValue::Combo(acc, gs.last()));
    }
}

proof fn lemma_generic_suffix(e: Seq<SymbolValue>, gs: Seq<nat>)
    requires
        entries_wf(e),
        forall|i: int| 0 <= i < gs.len() ==> #[trigger] gs[i] < e.len(),
    ensures
        entries_wf(spec_generic_suffix(e, gs).0),
        spec_generic_suffix(e, gs).1 < spec_generic_suffix(e, gs).0.len(),
        spec_generic_suffix(e, gs).0.len() >= e.len(),
        forall|i: int| 0 <= i < e.len() ==> #[trigger] spec_generic_suffix(e, gs).0[i] == e[i],
{
    lemma_generic_chain(e, gs);
    let (e1, acc) = spec_generic_chain(e, gs);
    lemma_intern_wf(e1, SymbolValue::Combo(acc, 1));
}

/// Interns the generic suffix for a list of (already interned) generic
/// argument symbols.
pub fn generic_declaration_suffix(symbol_table: &mut SymbolTable, generics: &[SymbolIndex]) -> (r: SymbolIndex)
    requires
        old(symbol_table).wf(),
        forall|i: int| 0 <= i < generics@.len() ==> #[trigger] generics@[i].0 < old(symbol_table)@.len(),
    ensures
        final(symbol_table).wf(),
        (final(symbol_table)@, r.0 as nat) == spec_generic_suffix(
            old(symbol_table)@,
            generics@.map_values(|g: SymbolIndex| g.0 as nat),
        ),
{
    let ghost e0 = symbol_table@;
    let ghost gs = generics@.map_values(|g: SymbolIndex| g.0 as nat);
    let mut declaration_suffix = get_generic_args_symbol_start(symbol_table);
    let mut k: usize = 0;
    proof {
        assert(gs.take(0) =~= Seq::<nat>::empty());
    }
    while k < generics.len()
        invariant
            k <= generics@.len(),
            gs == generics@.map_values(|g: SymbolIndex| g.0 as nat),
            forall|i: int| 0 <= i < gs.len() ==> #[trigger] gs[i] < e0.len(),
            entries_wf(e0),
            symbol_table.wf(),
            (symbol_table@, declaration_suffix.0 as nat) == spec_generic_chain(e0, gs.take(k as int)),
            symbol_table@.len() >= e0.len(),
        decreases generics@.len() - k,
    {
        proof {
            lemma_generic_chain(e0, gs.take(k as int));
            assert(gs[k as int] == generics@[k as int].0);
            assert(gs.take(k as int + 1).drop_last() =~= gs.take(k as int));
        }
        let g = generics[k];
        declaration_suffix = symbol_table.add_combo(declaration_suffix, g);
        k = k + 1;
    }
    proof {
        assert(gs.take(k as int) =~= gs);
        lemma_generic_chain(e0, gs);
    }
    let end = get_generic_args_symbol_end(symbol_table);
    symbol_table.add_combo(declaration_suffix, end)
}

/// Interning text twice yields the same index and leaves the table as the
/// first call left it.
pub proof fn law_add_idempotent(e: Seq<SymbolValue>, s: Seq<char>)
    requires
        entries_wf(e),
    ensures
        spec_intern(spec_intern(e, SymbolValue::Text(s)).0, SymbolValue::Text(s)) == spec_intern(
            e,
            SymbolValue::Text(s),
        ),
{
    let v = SymbolValue::Text(s);
    lemma_intern_wf(e, v);
    let (e1, i) = spec_intern(e, v);
    lemma_first_index_unique(e1, i as int);
}

/// What `get` returns for the index `add` handed out is the text that was
/// added.
pub proof fn law_get_after_add(e: Seq<SymbolValue>, s: Seq<char>)
    requires
        entries_wf(e),
    ensures
        spec_text(spec_intern(e, SymbolValue::Text(s)).0, spec_intern(e, SymbolValue::Text(s)).1) == s,
{
    lemma_intern_wf(e, SymbolValue::Text(s));
}

/// Adding to the table never changes the text shown for an index handed
/// out earlier.
pub proof fn law_add_preserves_text(e: Seq<SymbolValue>, v: SymbolValue, i: nat)
    requires
        entries_wf(e),
        v matches SymbolValue::Combo(a, b) ==> a < e.len() && b < e.len(),
        i < e.len(),
    ensures
        spec_text(spec_intern(e, v).0, i) == spec_text(e, i),
{
    lemma_intern_wf(e, v);
    lemma_text_stable(e, spec_intern(e, v).0, i);
}

/// A combo's text is its two halves joined by `::`.
pub proof fn law_combo_text(e: Seq<SymbolValue>, a: nat, b: nat)
    requires
        entries_wf(e),
        a < e.len(),
        b < e.len(),
    ensures
        spec_text(spec_intern(e, SymbolValue::Combo(a, b)).0, spec_intern(e, SymbolValue::Combo(a, b)).1)
            == spec_text(e, a) + combo_separator() + spec_text(e, b),
{
    let v = SymbolValue::Combo(a, b);
    lemma_intern_wf(e, v);
    let (e1, i) = spec_intern(e, v);
    lemma_text_stable(e, e1, a);
    lemma_text_stable(e, e1, b);
    assert(e1[i as int] == v);
}

/// `b` holds every entry of `a` at the same index.
pub open spec fn extends(a: Seq<SymbolValue>, b: Seq<SymbolValue>) -> bool {
    a.len() <= b.len() && forall|i: int| 0 <= i < a.len() ==> #[trigger] b[i] == a[i]
}

proof fn lemma_chain_root(e: Seq<SymbolValue>, gs: Seq<nat>, e2: Seq<SymbolValue>)
    requires
        entries_wf(e),
        forall|i: int| 0 <= i < gs.len() ==> #[trigger] gs[i] < e.len(),
        gs.len() > 0,
        entries_wf(e2),
        extends(spec_generic_chain(e, gs).0, e2),
    ensures
        spec_generic_chain(e, gs).0[spec_generic_chain(e, gs).1 as int] is Combo,
        spec_find_root(e2, spec_generic_chain(e, gs).1).0 == 0,
    decreases gs.len(),
{
    let p = gs.drop_last();
    assert forall|i: int| 0 <= i < p.len() implies #[trigger] p[i] < e.len() by {
        assert(p[i] == gs[i]);
    }
    lemma_generic_chain(e, p);
    let (e1, prev) = spec_generic_chain(e, p);
    let v = SymbolValue::Combo(prev, gs.last());
    lemma_intern_wf(e1, v);
    let (ec, acc) = spec_intern(e1, v);
    assert(extends(e1, ec));
    assert(e2[acc as int] == v);
    if p.len() == 0 {
        assert(prev == 0);
        assert(e2[0] == e[0]) by {
            lemma_generic_chain(e, gs);
        }
    } else {
        lemma_chain_root(e, p, e2);
        assert(e2[prev as int] == e1[prev as int]);
        assert(prev < acc);
    }
}

/// Stripping the generic arguments off a name they were added to gives
/// the name back: after `add_generics(b, gs)` on a plain name `b` with
/// some generic arguments, `get_name_without_generics` of the result is
/// `b`.
pub proof fn law_strip_added_generics(e: Seq<SymbolValue>, b: nat, gs: Seq<nat>)
    requires
        entries_wf(e),
        b < e.len(),
        e[b as int] is Text,
        gs.len() > 0,
        forall|i: int| 0 <= i < gs.len() ==> #[trigger] gs[i] < e.len(),
    ensures
        ({
            let (e1, suffix) = spec_generic_suffix(e, gs);
            let (e2, g) = spec_intern(e1, SymbolValue::Combo(b, suffix));
            spec_strip_generics(e2, spec_find_root(e2, g).0, spec_find_root(e2, g).1) == Some(b)
        }),
{
    lemma_generic_suffix(e, gs);
    lemma_generic_chain(e, gs);
    let (ec, acc) = spec_generic_chain(e, gs);
    let (e1, suffix) = spec_generic_suffix(e, gs);
    lemma_intern_wf(ec, SymbolValue::Combo(acc, 1));
    assert(extends(ec, e1));
    let v = SymbolValue::Combo(b, suffix);
    lemma_intern_wf(e1, v);
    let (e2, g) = spec_intern(e1, v);
    assert(extends(e1, e2));
    assert(extends(ec, e2));
    lemma_chain_root(e, gs, e2);
    assert(e2[g as int] == v);
    assert(e2[b as int] == e[b as int]);
    assert(spec_find_root(e2, g) == (b, Some(suffix)));
    assert(e2[suffix as int] == SymbolValue::Combo(acc, 1));
    assert(e2[acc as int] == ec[acc as int]);
    assert(acc < suffix);
    assert(spec_find_root(e2, suffix).0 == 0);
}

impl Default for SymbolTable {
    /// The same table as `new`.
    fn default() -> (r: SymbolTable)
        ensures
            r.wf(),
            r@ == seq![SymbolValue::Text(generic_start_text()), SymbolValue::Text(generic_end_text())],
    {
        SymbolTable::new()
    }
}

/// Interning a combo twice yields the same index and leaves the table as
/// the first call left it: `add_combo` of the same two indices hands out
/// one index.
pub proof fn law_add_combo_idempotent(e: Seq<SymbolValue>, a: nat, b: nat)
    requires
        entries_wf(e),
        a < e.len(),
        b < e.len(),
    ensures
        spec_intern(spec_intern(e, SymbolValue::Combo(a, b)).0, SymbolValue::Combo(a, b)) == spec_intern(
            e,
            SymbolValue::Combo(a, b),
        ),
{
    let v = SymbolValue::Combo(a, b);
    lemma_intern_wf(e, v);
    let (e1, i) = spec_intern(e, v);
    lemma_first_index_unique(e1, i as int);
}

} // verus!
