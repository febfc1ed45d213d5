//! TypeScript declarations for the Rust data types that cross into JavaScript: a struct
//! becomes an interface, an enum of bare variants a union of their names, and any other
//! enum an interface with one optional member per variant.
//!
//! A declaration is given as plain values: the names, the fields and the paths their
//! types are made of, and, for the parts that are refused, their debug text.
use vstd::prelude::*;
use vstd::string::{StringExecFns, StrSliceExecFns};
use crate::error::{debug_quoted, quoted};

verus! {

/// A path in a Rust type, such as `Vec<Hex>` or `creature::Part`: its segments, and the
/// paths that the types in its angle brackets are made of, in the order they are read.
#[derive(Debug)]
pub struct TsPath {
    pub segments: Vec<String>,
    pub args: Vec<TsPath>,
}

/// An attribute on a field: its path and the tokens that follow it, as written.
#[derive(Debug)]
pub struct TsAttr {
    pub path: Vec<String>,
    pub tokens: String,
}

/// A named field: its attributes, its name, and the paths its type is made of.
#[derive(Debug)]
pub struct TsField {
    pub attrs: Vec<TsAttr>,
    pub ident: String,
    pub ty: Vec<TsPath>,
}

/// The fields of a struct or of a variant.
#[derive(Debug)]
pub enum TsFields {
    Named(Vec<TsField>),
    Unnamed,
    Unit,
}

/// A variant of an enum, with the debug text of its fields.
#[derive(Debug)]
pub struct TsVariant {
    pub ident: String,
    pub fields: TsFields,
    pub fields_debug: String,
}

/// The body of a declaration.
#[derive(Debug)]
pub enum TsData {
    Struct { fields: TsFields, fields_debug: String },
    Enum { variants: Vec<TsVariant> },
    Union,
}

/// A declaration of a data type.
#[derive(Debug)]
pub struct TsDecl {
    pub ident: String,
    pub data: TsData,
}

/// Why a declaration has no TypeScript counterpart.
#[derive(Debug)]
pub struct TsError {
    pub text: String,
}

/// The items of a list of strings as `format!("{:?}", ..)` writes them: each one quoted,
/// as `debug_quoted` says, and separated by ", ".
pub open spec fn debug_items(v: Seq<Seq<char>>) -> Seq<char>
    decreases v.len(),
{
    if v.len() == 0 {
        Seq::empty()
    } else if v.len() == 1 {
        debug_quoted(v[0])
    } else {
        debug_items(v.drop_last()) + ", "@ + debug_quoted(v.last())
    }
}

/// The text that `format!("{:?}", ..)` writes for a list of strings: its items in square
/// brackets.
pub open spec fn debug_strings(v: Seq<Seq<char>>) -> Seq<char> {
    "["@ + debug_items(v) + "]"@
}

/// The text that `format!("{:?}", v)` writes for a list of strings: each item quoted as
/// `format!("{:?}", ..)` quotes a string, separated by ", ", in square brackets.
fn debug_list(v: &Vec<String>) -> (r: String)
    ensures
        r@ == debug_strings(texts(v@)),
{
    let mut out = String::from_str("[");
    let mut i: usize = 0;
    while i < v.len()
        invariant
            i <= v@.len(),
            out@ == "["@ + debug_items(texts(v@).take(i as int)),
        decreases v@.len() - i,
    {
        let ghost before = out@;
        if i > 0 {
            out.append(", ");
        }
        let q = quoted(v[i].as_str());
        out.append(q.as_str());
        proof {
            let t = texts(v@);
            assert(t.take(i + 1).drop_last() =~= t.take(i as int));
            assert(t.take(i + 1).last() == v@[i as int]@);
            if i == 0 {
                assert(t.take(1).len() == 1);
                assert(out@ =~= "["@ + debug_items(t.take(1)));
            } else {
                assert(out@ =~= "["@ + debug_items(t.take(i + 1)));
            }
        }
        i = i + 1;
    }
    out.append("]");
    proof {
        assert(texts(v@).take(v@.len() as int) =~= texts(v@));
    }
    out
}

/// The texts of a list of strings.
pub open spec fn texts(v: Seq<String>) -> Seq<Seq<char>> {
    v.map_values(|s: String| s@)
}

/// Whether two texts are the same.
fn text_is(a: &str, b: &str) -> (r: bool)
    ensures
        r == (a@ == b@),
{
    let n = a.unicode_len();
    if n != b.unicode_len() {
        return false;
    }
    let mut i: usize = 0;
    while i < n
        invariant
            n == a@.len(),
            n == b@.len(),
            i <= n,
            forall|j: int| 0 <= j < i ==> a@[j] == b@[j],
        decreases n - i,
    {
        if a.get_char(i) != b.get_char(i) {
            return false;
        }
        i = i + 1;
    }
    assert(a@ =~= b@);
    true
}

/// The segments joined by `::`.
pub open spec fn joined(segs: Seq<Seq<char>>) -> Seq<char>
    decreases segs.len(),
{
    if segs.len() <= 1 {
        if segs.len() == 1 {
            segs[0]
        } else {
            Seq::empty()
        }
    } else {
        joined(segs.drop_last()) + "::"@ + segs.last()
    }
}

/// A path's name: its segments joined by `::`.
pub open spec fn spec_path_name(segments: Seq<String>) -> Seq<char> {
    joined(texts(segments))
}

/// Every path in `p`, itself included, has a segment.
pub open spec fn path_wf(p: TsPath) -> bool
    decreases p, 1int, 0int,
{
    &&& p.segments@.len() > 0
    &&& paths_wf_upto(p, p.args@.len() as int)
}

/// The first `n` paths in the angle brackets of `p` are sound.
pub open spec fn paths_wf_upto(p: TsPath, n: int) -> bool
    decreases p, 0int, n,
{
    if n <= 0 || n > p.args@.len() {
        true
    } else {
        proof {
            assert(decreases_to!(p => p.args));
            assert(decreases_to!(p.args => p.args@));
            assert(decreases_to!(p.args@ => p.args@[n - 1]));
        }
        paths_wf_upto(p, n - 1) && path_wf(p.args@[n - 1])
    }
}

/// Every path of the list has a segment.
pub open spec fn all_paths_wf(ps: Seq<TsPath>) -> bool {
    forall|i: int| 0 <= i < ps.len() ==> #[trigger] path_wf(ps[i])
}

/// The name of a path: its segments joined by `::`.
fn path_name(segments: &Vec<String>) -> (r: String)
    requires
        segments@.len() > 0,
    ensures
        r@ == spec_path_name(segments@),
{
    let mut out = segments[0].clone();
    let mut i: usize = 1;
    proof {
        assert(texts(segments@).take(1) =~= seq![segments@[0]@]);
    }
    while i < segments.len()
        invariant
            1 <= i <= segments@.len(),
            out@ == joined(texts(segments@).take(i as int)),
        decreases segments@.len() - i,
    {
        out.append("::");
        out.append(segments[i].as_str());
        proof {
            let t = texts(segments@);
            assert(t.take(i + 1).drop_last() =~= t.take(i as int));
            assert(t.take(i + 1).last() == segments@[i as int]@);
        }
        i = i + 1;
    }
    proof {
        assert(texts(segments@).take(segments@.len() as int) =~= texts(segments@));
    }
    out
}

/// What a type conversion has gathered: the TypeScript types, whether `Option` marks the
/// field as optional rather than being written out, whether it did so, and the last
/// error met.
pub struct TransView {
    pub out: Seq<Seq<char>>,
    pub flag_optional: bool,
    pub is_optional: bool,
    pub error: Option<Seq<char>>,
}

/// Turns Rust type paths into TypeScript types.
pub struct TranslateType {
    pub out: Vec<String>,
    pub flag_optional: bool,
    pub is_optional: bool,
    pub error: Option<TsError>,
}

impl View for TranslateType {
    type V = TransView;

    open spec fn view(&self) -> TransView {
        TransView {
            out: texts(self.out@),
            flag_optional: self.flag_optional,
            is_optional: self.is_optional,
            error: match self.error {
                Some(e) => Some(e.text@),
                None => None,
            },
        }
    }
}

/// A conversion that has gathered nothing.
pub open spec fn fresh() -> TransView {
    TransView { out: Seq::empty(), flag_optional: false, is_optional: false, error: None }
}

/// The names that stand for themselves in TypeScript.
pub open spec fn passthrough(s: Seq<char>) -> bool {
    ||| s == "Action"@
    ||| s == "ActionKind"@
    ||| s == "Card"@
    ||| s == "Creature"@
    ||| s == "CreatureAction"@
    ||| s == "CreatureEvent"@
    ||| s == "Direction"@
    ||| s == "Event"@
    ||| s == "Hex"@
    ||| s == "Intent"@
    ||| s == "IntentKind"@
    ||| s == "Motion"@
    ||| s == "MotionKind"@
    ||| s == "NPC"@
    ||| s == "Part"@
    ||| s == "PartAction"@
    ||| s == "PartEvent"@
    ||| s == "PartTag"@
    ||| s == "Range"@
    ||| s == "Space"@
    ||| s == "Target"@
    ||| s == "TargetSpec"@
}

/// The TypeScript type of a plain Rust type or of one named by its module.
pub open spec fn plain_type(s: Seq<char>) -> Option<Seq<char>> {
    if s == "i32"@ || s == "ModId"@ || s == "TriggerId"@ {
        Some("number"@)
    } else if s == "String"@ {
        Some("string"@)
    } else if s == "bool"@ {
        Some("boolean"@)
    } else if s == "card::Card"@ {
        Some("Card"@)
    } else if s == "creature::Creature"@ {
        Some("Creature"@)
    } else if s == "creature::Part"@ {
        Some("Part"@)
    } else if s == "hex::Direction"@ {
        Some("Direction"@)
    } else {
        None
    }
}

/// `t` with `s` added to the types gathered.
pub open spec fn pushed(t: TransView, s: Seq<char>) -> TransView {
    TransView { out: t.out.push(s), ..t }
}

/// `t` with its error set to `e`.
pub open spec fn failed(t: TransView, e: Seq<char>) -> TransView {
    TransView { error: Some(e), ..t }
}

/// The type that a path with one type in its brackets becomes, `wrap` applied to
/// that type; anything else is an error naming `what`.
pub open spec fn wrapped_one(t: TransView, inner: TransView, what: Seq<char>, wrap: spec_fn(Seq<char>) -> Seq<char>) -> TransView {
    if inner.out.len() == 1 {
        pushed(t, wrap(inner.out[0]))
    } else {
        failed(t, "invalid "@ + what + " args "@ + debug_strings(inner.out))
    }
}

/// Reading path `p` takes conversion state `t` to the result.
pub open spec fn visit(t: TransView, p: TsPath) -> TransView
    decreases p, 1int, 0int,
{
    let name = spec_path_name(p.segments@);
    let len = p.args@.len() as int;
    if name == "Box"@ {
        visit_args(t, p, len)
    } else if name == "HashMap"@ {
        let inner = visit_args(fresh(), p, len);
        if inner.out.len() == 2 {
            pushed(t, "Map<"@ + inner.out[0] + ", "@ + inner.out[1] + ">"@)
        } else {
            failed(t, "invalid HashMap args "@ + debug_strings(inner.out))
        }
    } else if name == "Id"@ {
        wrapped_one(t, visit_args(fresh(), p, len), "Id"@, |s: Seq<char>| "Id<"@ + s + ">"@)
    } else if name == "Option"@ {
        if t.flag_optional {
            visit_args(TransView { is_optional: true, ..t }, p, len)
        } else {
            wrapped_one(t, visit_args(fresh(), p, len), "Option"@, |s: Seq<char>| s + " | undefined"@)
        }
    } else if name == "Vec"@ {
        wrapped_one(t, visit_args(fresh(), p, len), "Vec"@, |s: Seq<char>| s + "[]"@)
    } else if plain_type(name) is Some {
        pushed(t, plain_type(name)->0)
    } else if passthrough(name) {
        pushed(t, name)
    } else {
        failed(t, "unhandled type "@ + name)
    }
}

/// Reading the first `n` paths in the angle brackets of `p` in turn takes `t` to the result.
pub open spec fn visit_args(t: TransView, p: TsPath, n: int) -> TransView
    decreases p, 0int, n,
{
    if n <= 0 || n > p.args@.len() {
        t
    } else {
        proof {
            assert(decreases_to!(p => p.args));
            assert(decreases_to!(p.args => p.args@));
            assert(decreases_to!(p.args@ => p.args@[n - 1]));
        }
        visit(visit_args(t, p, n - 1), p.args@[n - 1])
    }
}

/// Reading the first `n` paths of `ps` in turn takes `t` to the result.
pub open spec fn visit_list(t: TransView, ps: Seq<TsPath>, n: int) -> TransView
    decreases n,
{
    if n <= 0 {
        t
    } else {
        visit(visit_list(t, ps, n - 1), ps[n - 1])
    }
}

impl TranslateType {
    pub fn new() -> (r: TranslateType)
        ensures
            r@ == fresh(),
    {
        let r = TranslateType { out: Vec::new(), flag_optional: false, is_optional: false, error: None };
        assert(r@.out =~= Seq::<Seq<char>>::empty());
        r
    }

    /// Whether `s` names a type that stands for itself in TypeScript.
    pub fn is_passthrough(s: &str) -> (r: bool)
        ensures
            r == passthrough(s@),
    {
        text_is(s, "Action") || text_is(s, "ActionKind") || text_is(s, "Card") || text_is(s, "Creature")
            || text_is(s, "CreatureAction") || text_is(s, "CreatureEvent") || text_is(s, "Direction")
            || text_is(s, "Event") || text_is(s, "Hex") || text_is(s, "Intent") || text_is(s, "IntentKind")
            || text_is(s, "Motion") || text_is(s, "MotionKind") || text_is(s, "NPC") || text_is(s, "Part")
            || text_is(s, "PartAction") || text_is(s, "PartEvent") || text_is(s, "PartTag") || text_is(s, "Range")
            || text_is(s, "Space") || text_is(s, "Target") || text_is(s, "TargetSpec")
    }

    fn push_str(&mut self, s: String)
        ensures
            final(self)@ == pushed(old(self)@, s@),
    {
        self.out.push(s);
        proof {
            assert(texts(self.out@) =~= texts(old(self).out@).push(s@));
        }
    }

    fn fail(&mut self, text: String)
        ensures
            final(self)@ == failed(old(self)@, text@),
    {
        self.error = Some(TsError { text });
    }

    /// The TypeScript type of a plain Rust type or of one named by its module.
    fn plain(name: &str) -> (r: Option<String>)
        ensures
            match r {
                Some(s) => plain_type(name@) == Some(s@),
                None => plain_type(name@) is None,
            },
    {
        if text_is(name, "i32") || text_is(name, "ModId") || text_is(name, "TriggerId") {
            Some(String::from_str("number"))
        } else if text_is(name, "String") {
            Some(String::from_str("string"))
        } else if text_is(name, "bool") {
            Some(String::from_str("boolean"))
        } else if text_is(name, "card::Card") {
            Some(String::from_str("Card"))
        } else if text_is(name, "creature::Creature") {
            Some(String::from_str("Creature"))
        } else if text_is(name, "creature::Part") {
            Some(String::from_str("Part"))
        } else if text_is(name, "hex::Direction") {
            Some(String::from_str("Direction"))
        } else {
            None
        }
    }

    /// Reads the paths in the angle brackets of `p` in turn.
    fn visit_args(&mut self, p: &TsPath)
        requires
            path_wf(*p),
        ensures
            final(self)@ == visit_args(old(self)@, *p, p.args@.len() as int),
        decreases p, 0int,
    {
        let mut i: usize = 0;
        while i < p.args.len()
            invariant
                path_wf(*p),
                i <= p.args@.len(),
                self@ == visit_args(old(self)@, *p, i as int),
            decreases p.args@.len() - i,
        {
            proof {
                lemma_args_wf(*p, i as int);
                assert(decreases_to!(p => p.args));
                assert(decreases_to!(p.args => p.args@));
                assert(decreases_to!(p.args@ => p.args@[i as int]));
            }
            self.visit_path(&p.args[i]);
            i = i + 1;
        }
    }

    /// Reads path `p`: the containers it knows are written out around the types in their
    /// brackets, plain types are named in TypeScript, and anything else is an error.
    pub fn visit_path(&mut self, p: &TsPath)
        requires
            path_wf(*p),
        ensures
            final(self)@ == visit(old(self)@, *p),
        decreases p, 1int,
    {
        let name = path_name(&p.segments);
        let n = name.as_str();
        if text_is(n, "Box") {
            self.visit_args(p);
        } else if text_is(n, "HashMap") {
            let mut tmp = TranslateType::new();
            tmp.visit_args(p);
            if tmp.out.len() == 2 {
                let mut s = String::from_str("Map<");
                s.append(tmp.out[0].as_str());
                s.append(", ");
                s.append(tmp.out[1].as_str());
                s.append(">");
                proof {
                    assert(tmp@.out[0] == tmp.out@[0]@ && tmp@.out[1] == tmp.out@[1]@);
                }
                self.push_str(s);
            } else {
                let mut s = String::from_str("invalid HashMap args ");
                let d = debug_list(&tmp.out);
                s.append(d.as_str());
                self.fail(s);
            }
        } else if text_is(n, "Id") {
            let mut tmp = TranslateType::new();
            tmp.visit_args(p);
            if tmp.out.len() == 1 {
                let mut s = String::from_str("Id<");
                s.append(tmp.out[0].as_str());
                s.append(">");
                proof {
                    assert(tmp@.out[0] == tmp.out@[0]@);
                }
                self.push_str(s);
            } else {
                self.fail_args("Id", &tmp.out);
            }
        } else if text_is(n, "Option") {
            if self.flag_optional {
                self.is_optional = true;
                self.visit_args(p);
            } else {
                let mut tmp = TranslateType::new();
                tmp.visit_args(p);
                if tmp.out.len() == 1 {
                    let mut s = tmp.out[0].clone();
                    s.append(" | undefined");
                    proof {
                        assert(tmp@.out[0] == tmp.out@[0]@);
                    }
                    self.push_str(s);
                } else {
                    self.fail_args("Option", &tmp.out);
                }
            }
        } else if text_is(n, "Vec") {
            let mut tmp = TranslateType::new();
            tmp.visit_args(p);
            if tmp.out.len() == 1 {
                let mut s = tmp.out[0].clone();
                s.append("[]");
                proof {
                    assert(tmp@.out[0] == tmp.out@[0]@);
                }
                self.push_str(s);
            } else {
                self.fail_args("Vec", &tmp.out);
            }
        } else {
            match TranslateType::plain(n) {
                Some(s) => self.push_str(s),
                None => {
                    if TranslateType::is_passthrough(n) {
                        self.push_str(String::from_str(n));
                    } else {
                        let mut s = String::from_str("unhandled type ");
                        s.append(n);
                        self.fail(s);
                    }
                },
            }
        }
    }

    /// Records that the brackets of a `what` held other than one type.
    fn fail_args(&mut self, what: &str, got: &Vec<String>)
        ensures
            final(self)@ == failed(old(self)@, "invalid "@ + what@ + " args "@ + debug_strings(texts(got@))),
    {
        let mut s = String::from_str("invalid ");
        s.append(what);
        s.append(" args ");
        let d = debug_list(got);
        s.append(d.as_str());
        self.fail(s);
    }

    /// Reads the paths of `ps` in turn.
    fn visit_all(&mut self, ps: &Vec<TsPath>)
        requires
            all_paths_wf(ps@),
        ensures
            final(self)@ == visit_list(old(self)@, ps@, ps@.len() as int),
    {
        let mut i: usize = 0;
        while i < ps.len()
            invariant
                all_paths_wf(ps@),
                i <= ps@.len(),
                self@ == visit_list(old(self)@, ps@, i as int),
            decreases ps@.len() - i,
        {
            self.visit_path(&ps[i]);
            i = i + 1;
        }
    }
}

proof fn lemma_args_wf(p: TsPath, i: int)
    requires
        path_wf(p),
        0 <= i < p.args@.len(),
    ensures
        path_wf(p.args@[i]),
{
    lemma_args_wf_upto(p, p.args@.len() as int, i);
}

proof fn lemma_args_wf_upto(p: TsPath, n: int, i: int)
    requires
        paths_wf_upto(p, n),
        0 <= i < n <= p.args@.len(),
    ensures
        path_wf(p.args@[i]),
    decreases n,
{
    if i < n - 1 {
        lemma_args_wf_upto(p, n - 1, i);
    }
}

proof fn lemma_fields_stop(pad: Seq<char>, fs: Seq<TsField>, k: int, n: int)
    requires
        0 <= k <= n,
        fields_upto(pad, fs, k).1 is Some,
    ensures
        fields_upto(pad, fs, n) == fields_upto(pad, fs, k),
    decreases n - k,
{
    if n > k {
        lemma_fields_stop(pad, fs, k, n - 1);
    }
}

proof fn lemma_variants_stop(vs: Seq<TsVariant>, k: int, n: int)
    requires
        0 <= k <= n,
        variants_upto(vs, k).1 is Some,
    ensures
        variants_upto(vs, n) == variants_upto(vs, k),
    decreases n - k,
{
    if n > k {
        lemma_variants_stop(vs, k, n - 1);
    }
}

/// The attribute is `#[serde(skip)]`.
pub open spec fn spec_is_skip(a: TsAttr) -> bool {
    spec_path_name(a.path@) == "serde"@ && a.tokens@ == "(skip)"@
}

/// Whether the attribute is `#[serde(skip)]`, which keeps its field out.
pub fn is_skip(attr: &TsAttr) -> (r: bool)
    requires
        attr.path@.len() > 0,
    ensures
        r == spec_is_skip(*attr),
{
    let name = path_name(&attr.path);
    text_is(name.as_str(), "serde") && text_is(attr.tokens.as_str(), "(skip)")
}

/// Every path of the field's type and of its attributes has a segment.
pub open spec fn field_wf(f: TsField) -> bool {
    &&& all_paths_wf(f.ty@)
    &&& forall|i: int| 0 <= i < f.attrs@.len() ==> (#[trigger] f.attrs@[i]).path@.len() > 0
}

/// The field is kept out by one of its attributes.
pub open spec fn skipped(f: TsField) -> bool {
    exists|i: int| 0 <= i < f.attrs@.len() && #[trigger] spec_is_skip(f.attrs@[i])
}

/// What a field's type becomes, `Option` marking it optional.
pub open spec fn field_ts(f: TsField) -> TransView {
    visit_list(TransView { flag_optional: true, ..fresh() }, f.ty@, f.ty@.len() as int)
}

/// The line a field gives, indented by `pad`: none when it is kept out, an error when its
/// type does not become exactly one TypeScript type.
pub open spec fn field_line(pad: Seq<char>, f: TsField) -> Result<Option<Seq<char>>, Seq<char>> {
    let t = field_ts(f);
    if skipped(f) {
        Ok(None)
    } else if t.error is Some {
        Err(t.error->0)
    } else if t.out.len() != 1 {
        Err("Invalid translated type "@ + debug_strings(t.out))
    } else {
        Ok(Some(pad + f.ident@ + (if t.is_optional { "?"@ } else { Seq::<char>::empty() }) + ": "@ + t.out[0] + ",\n"@))
    }
}

/// The lines of the first `n` fields, up to the first error, and that error.
pub open spec fn fields_upto(pad: Seq<char>, fs: Seq<TsField>, n: int) -> (Seq<char>, Option<Seq<char>>)
    decreases n,
{
    if n <= 0 {
        (Seq::empty(), None)
    } else {
        let (text, err) = fields_upto(pad, fs, n - 1);
        if err is Some {
            (text, err)
        } else {
            match field_line(pad, fs[n - 1]) {
                Ok(Some(line)) => (text + line, None),
                Ok(None) => (text, None),
                Err(e) => (text, Some(e)),
            }
        }
    }
}

/// The lines of all the fields, up to the first error, and that error.
pub open spec fn fields_text(pad: Seq<char>, fs: Seq<TsField>) -> (Seq<char>, Option<Seq<char>>) {
    fields_upto(pad, fs, fs.len() as int)
}

/// Writes a line for each field, indented by `pad`; stops at the first field whose type
/// has no TypeScript counterpart.
pub fn build_fields(buffer: &mut String, pad: &str, fields: &Vec<TsField>) -> (r: Result<(), TsError>)
    requires
        forall|i: int| 0 <= i < fields@.len() ==> #[trigger] field_wf(fields@[i]),
    ensures
        final(buffer)@ == old(buffer)@ + fields_text(pad@, fields@).0,
        match r {
            Ok(()) => fields_text(pad@, fields@).1 is None,
            Err(e) => fields_text(pad@, fields@).1 == Some(e.text@),
        },
{
    let mut i: usize = 0;
    while i < fields.len()
        invariant
            forall|k: int| 0 <= k < fields@.len() ==> #[trigger] field_wf(fields@[k]),
            i <= fields@.len(),
            fields_upto(pad@, fields@, i as int).1 is None,
            buffer@ == old(buffer)@ + fields_upto(pad@, fields@, i as int).0,
        decreases fields@.len() - i,
    {
        let v = &fields[i];
        let ghost before = buffer@;
        proof {
            assert(field_wf(fields@[i as int]));
        }
        let mut skip = false;
        let mut k: usize = 0;
        while k < v.attrs.len()
            invariant
                field_wf(*v),
                k <= v.attrs@.len(),
                skip == exists|j: int| 0 <= j < k && #[trigger] spec_is_skip(v.attrs@[j]),
            decreases v.attrs@.len() - k,
        {
            if is_skip(&v.attrs[k]) {
                skip = true;
            }
            k = k + 1;
        }
        if !skip {
            let mut trans = TranslateType::new();
            trans.flag_optional = true;
            proof {
                assert(trans@ == (TransView { flag_optional: true, ..fresh() }));
            }
            trans.visit_all(&v.ty);
            match trans.error {
                Some(err) => {
                    proof {
                        assert(field_line(pad@, *v) == Err::<Option<Seq<char>>, Seq<char>>(err.text@));
                        assert(fields_upto(pad@, fields@, i + 1) == (fields_upto(pad@, fields@, i as int).0, Some(err.text@)));
                        lemma_fields_stop(pad@, fields@, i + 1, fields@.len() as int);
                    }
                    return Err(err);
                },
                None => {},
            }
            if trans.out.len() != 1 {
                let mut text = String::from_str("Invalid translated type ");
                let d = debug_list(&trans.out);
                text.append(d.as_str());
                proof {
                    assert(field_line(pad@, *v) == Err::<Option<Seq<char>>, Seq<char>>(text@));
                    assert(fields_upto(pad@, fields@, i + 1) == (fields_upto(pad@, fields@, i as int).0, Some(text@)));
                    lemma_fields_stop(pad@, fields@, i + 1, fields@.len() as int);
                }
                return Err(TsError { text });
            }
            buffer.append(pad);
            buffer.append(v.ident.as_str());
            if trans.is_optional {
                buffer.append("?");
            }
            buffer.append(": ");
            buffer.append(trans.out[0].as_str());
            buffer.append(",\n");
            proof {
                assert(trans@.out[0] == trans.out@[0]@);
                let line = pad@ + v.ident@ + (if trans.is_optional { "?"@ } else { Seq::<char>::empty() }) + ": "@ + trans@.out[0] + ",\n"@;
                assert(field_line(pad@, *v) == Ok::<Option<Seq<char>>, Seq<char>>(Some(line)));
                assert(buffer@ =~= before + line);
            }
        }
        i = i + 1;
    }
    Ok(())
}

/// Every variant's fields, and every path in them, are sound.
pub open spec fn variants_wf(vs: Seq<TsVariant>) -> bool {
    forall|i: int| 0 <= i < vs.len() ==> match (#[trigger] vs[i]).fields {
        TsFields::Named(fs) => forall|k: int| 0 <= k < fs@.len() ==> #[trigger] field_wf(fs@[k]),
        _ => true,
    }
}

/// `export type Name = "A" | "B" | ...;`, for the first `n` variant names.
pub open spec fn simple_names(vs: Seq<TsVariant>, n: int) -> Seq<char>
    decreases n,
{
    if n <= 1 {
        "\""@ + vs[0].ident@ + "\""@
    } else {
        simple_names(vs, n - 1) + " | \""@ + vs[n - 1].ident@ + "\""@
    }
}

/// The union type of an enum whose variants are all bare.
pub open spec fn simple_enum_text(name: Seq<char>, vs: Seq<TsVariant>) -> Seq<char> {
    "export type "@ + name + " = "@ + simple_names(vs, vs.len() as int) + ";"@
}

/// Writes an enum whose variants are all bare as the union of their names.
pub fn build_simple_enum(buffer: &mut String, name: &str, variants: &Vec<TsVariant>)
    requires
        variants@.len() > 0,
    ensures
        final(buffer)@ == old(buffer)@ + simple_enum_text(name@, variants@),
{
    buffer.append("export type ");
    buffer.append(name);
    buffer.append(" = ");
    buffer.append("\"");
    buffer.append(variants[0].ident.as_str());
    buffer.append("\"");
    proof {
        assert(buffer@ =~= old(buffer)@ + "export type "@ + name@ + " = "@ + simple_names(variants@, 1));
    }
    let mut i: usize = 1;
    while i < variants.len()
        invariant
            1 <= i <= variants@.len(),
            buffer@ == old(buffer)@ + "export type "@ + name@ + " = "@ + simple_names(variants@, i as int),
        decreases variants@.len() - i,
    {
        let ghost b = buffer@;
        buffer.append(" | \"");
        buffer.append(variants[i].ident.as_str());
        buffer.append("\"");
        proof {
            assert(buffer@ =~= b + " | \""@ + variants@[i as int].ident@ + "\""@);
        }
        i = i + 1;
    }
    buffer.append(";");
    proof {
        assert(buffer@ =~= old(buffer)@ + simple_enum_text(name@, variants@));
    }
}

/// The member an enum's variant gives, up to the first error, and that error.
pub open spec fn variant_text(v: TsVariant) -> (Seq<char>, Option<Seq<char>>) {
    let head = "    "@ + v.ident@ + "?: "@;
    match v.fields {
        TsFields::Unit => (head + "{}\n"@, None),
        TsFields::Named(fs) => {
            let (body, err) = fields_text("        "@, fs@);
            if err is Some {
                (head + "{\n"@ + body, err)
            } else {
                (head + "{\n"@ + body + "    },\n"@, None)
            }
        },
        TsFields::Unnamed => (head, Some("unhandled enum variant: "@ + v.fields_debug@)),
    }
}

/// The members of the first `n` variants, up to the first error, and that error.
pub open spec fn variants_upto(vs: Seq<TsVariant>, n: int) -> (Seq<char>, Option<Seq<char>>)
    decreases n,
{
    if n <= 0 {
        (Seq::empty(), None)
    } else {
        let (text, err) = variants_upto(vs, n - 1);
        if err is Some {
            (text, err)
        } else {
            let (more, e2) = variant_text(vs[n - 1]);
            (text + more, e2)
        }
    }
}

/// Every variant is bare.
pub open spec fn all_bare(vs: Seq<TsVariant>) -> bool {
    forall|i: int| 0 <= i < vs.len() ==> (#[trigger] vs[i]).fields is Unit
}

/// What an enum gives, up to the first error, and that error.
pub open spec fn enum_text(name: Seq<char>, vs: Seq<TsVariant>) -> (Seq<char>, Option<Seq<char>>) {
    if all_bare(vs) {
        (simple_enum_text(name, vs), None)
    } else {
        let (body, err) = variants_upto(vs, vs.len() as int);
        let head = "export interface "@ + name + " {\n"@;
        if err is Some {
            (head + body, err)
        } else {
            (head + body + "}\n"@, None)
        }
    }
}

/// Writes an enum: the union of the names when every variant is bare, else an interface
/// with one optional member per variant.
pub fn build_enum(buffer: &mut String, name: &str, variants: &Vec<TsVariant>) -> (r: Result<(), TsError>)
    requires
        variants@.len() > 0,
        variants_wf(variants@),
    ensures
        final(buffer)@ == old(buffer)@ + enum_text(name@, variants@).0,
        match r {
            Ok(()) => enum_text(name@, variants@).1 is None,
            Err(e) => enum_text(name@, variants@).1 == Some(e.text@),
        },
{
    let mut all_simple = true;
    let mut i: usize = 0;
    while i < variants.len()
        invariant
            i <= variants@.len(),
            all_simple == forall|j: int| 0 <= j < i ==> (#[trigger] variants@[j]).fields is Unit,
        decreases variants@.len() - i,
    {
        match variants[i].fields {
            TsFields::Unit => {},
            _ => {
                all_simple = false;
            },
        }
        i = i + 1;
    }
    if all_simple {
        build_simple_enum(buffer, name, variants);
        return Ok(());
    }
    buffer.append("export interface ");
    buffer.append(name);
    buffer.append(" {\n");
    let ghost head = buffer@;
    proof {
        assert(!all_bare(variants@));
        assert(head =~= old(buffer)@ + "export interface "@ + name@ + " {\n"@);
    }
    let mut i: usize = 0;
    while i < variants.len()
        invariant
            variants_wf(variants@),
            !all_bare(variants@),
            head == old(buffer)@ + "export interface "@ + name@ + " {\n"@,
            i <= variants@.len(),
            variants_upto(variants@, i as int).1 is None,
            buffer@ == head + variants_upto(variants@, i as int).0,
        decreases variants@.len() - i,
    {
        let v = &variants[i];
        let ghost b = buffer@;
        proof {
            assert(variants@[i as int] == *v);
        }
        match build_variant(buffer, v) {
            Err(e) => {
                proof {
                    assert(variants_upto(variants@, i + 1) == (variants_upto(variants@, i as int).0 + variant_text(*v).0, Some(e.text@)));
                    lemma_variants_stop(variants@, i + 1, variants@.len() as int);
                    assert(buffer@ =~= old(buffer)@ + enum_text(name@, variants@).0);
                }
                return Err(e);
            },
            Ok(()) => {},
        }
        proof {
            assert(buffer@ =~= head + variants_upto(variants@, i + 1).0);
        }
        i = i + 1;
    }
    buffer.append("}\n");
    Ok(())
}

/// Writes the member of an enum's variant.
fn build_variant(buffer: &mut String, v: &TsVariant) -> (r: Result<(), TsError>)
    requires
        v.fields matches TsFields::Named(fs) ==> forall|k: int| 0 <= k < fs@.len() ==> #[trigger] field_wf(fs@[k]),
    ensures
        final(buffer)@ == old(buffer)@ + variant_text(*v).0,
        match r {
            Ok(()) => variant_text(*v).1 is None,
            Err(e) => variant_text(*v).1 == Some(e.text@),
        },
{
    buffer.append("    ");
    buffer.append(v.ident.as_str());
    buffer.append("?: ");
    match &v.fields {
        TsFields::Unit => {
            buffer.append("{}\n");
            proof {
                assert(buffer@ =~= old(buffer)@ + variant_text(*v).0);
            }
        },
        TsFields::Named(fs) => {
            buffer.append("{\n");
            let res = build_fields(buffer, "        ", fs);
            match res {
                Err(e) => {
                    proof {
                        assert(buffer@ =~= old(buffer)@ + variant_text(*v).0);
                    }
                    return Err(e);
                },
                Ok(()) => {},
            }
            buffer.append("    },\n");
            proof {
                assert(buffer@ =~= old(buffer)@ + variant_text(*v).0);
            }
        },
        TsFields::Unnamed => {
            let mut text = String::from_str("unhandled enum variant: ");
            text.append(v.fields_debug.as_str());
            proof {
                assert(buffer@ =~= old(buffer)@ + variant_text(*v).0);
            }
            return Err(TsError { text });
        },
    }
    Ok(())
}

/// What a struct gives, up to the first error, and that error.
pub open spec fn struct_text(name: Seq<char>, fields: TsFields, fields_debug: Seq<char>) -> (Seq<char>, Option<Seq<char>>) {
    let head = "export interface "@ + name + " {\n"@;
    match fields {
        TsFields::Named(fs) => {
            let (body, err) = fields_text("    "@, fs@);
            if err is Some {
                (head + body, err)
            } else {
                (head + body + "}"@, None)
            }
        },
        _ => (head, Some("unhandled Fields branch: "@ + fields_debug)),
    }
}

/// Writes a struct with named fields as an interface.
pub fn build_struct(buffer: &mut String, name: &str, fields: &TsFields, fields_debug: &str) -> (r: Result<(), TsError>)
    requires
        fields matches TsFields::Named(fs) ==> forall|k: int| 0 <= k < fs@.len() ==> #[trigger] field_wf(fs@[k]),
    ensures
        final(buffer)@ == old(buffer)@ + struct_text(name@, *fields, fields_debug@).0,
        match r {
            Ok(()) => struct_text(name@, *fields, fields_debug@).1 is None,
            Err(e) => struct_text(name@, *fields, fields_debug@).1 == Some(e.text@),
        },
{
    buffer.append("export interface ");
    buffer.append(name);
    buffer.append(" {\n");
    let fs = match fields {
        TsFields::Named(f) => f,
        _ => {
            let mut text = String::from_str("unhandled Fields branch: ");
            text.append(fields_debug);
            return Err(TsError { text });
        },
    };
    let res = build_fields(buffer, "    ", fs);
    match res {
        Err(e) => return Err(e),
        Ok(()) => {},
    }
    buffer.append("}");
    Ok(())
}

/// Every path in the declaration has a segment, and an enum has a variant.
pub open spec fn decl_wf(d: TsDecl) -> bool {
    match d.data {
        TsData::Struct { fields, .. } => fields matches TsFields::Named(fs) ==> forall|k: int|
            0 <= k < fs@.len() ==> #[trigger] field_wf(fs@[k]),
        TsData::Enum { variants } => variants@.len() > 0 && variants_wf(variants@),
        TsData::Union => true,
    }
}

/// The TypeScript a declaration gives, or why it gives none.
pub open spec fn decl_text(d: TsDecl) -> Result<Seq<char>, Seq<char>> {
    let head = "\n/* TsData Generated */\n"@;
    match d.data {
        TsData::Enum { variants } => match enum_text(d.ident@, variants@) {
            (body, None) => Ok(head + body),
            (_, Some(e)) => Err(e),
        },
        TsData::Struct { fields, fields_debug } => match struct_text(d.ident@, fields, fields_debug@) {
            (body, None) => Ok(head + body),
            (_, Some(e)) => Err(e),
        },
        TsData::Union => Err("unhandled ast.data branch"@),
    }
}

/// The TypeScript declaration of a data type.
pub fn derive_impl(ast: &TsDecl) -> (r: Result<String, TsError>)
    requires
        decl_wf(*ast),
    ensures
        match r {
            Ok(s) => decl_text(*ast) == Ok::<Seq<char>, Seq<char>>(s@),
            Err(e) => decl_text(*ast) == Err::<Seq<char>, Seq<char>>(e.text@),
        },
{
    let mut output = String::from_str("\n/* TsData Generated */\n");
    let res = match &ast.data {
        TsData::Enum { variants } => build_enum(&mut output, ast.ident.as_str(), variants),
        TsData::Struct { fields, fields_debug } => build_struct(&mut output, ast.ident.as_str(), fields, fields_debug.as_str()),
        TsData::Union => return Err(TsError { text: String::from_str("unhandled ast.data branch") }),
    };
    match res {
        Ok(()) => Ok(output),
        Err(e) => Err(e),
    }
}

} // verus!
