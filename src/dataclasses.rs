//! Typed fields: parameters with a default, and the kind of that default.
use vstd::prelude::*;
use crate::params::{parameters_of, rewritten, with_default, ParamModel, Parameter, ParameterReplacer};
use crate::text::{chars_of, push_char, push_str, string_of};
use crate::types::{float_literal, int_literal, is_float, is_int};

verus! {

/// The type of a default value.
#[derive(Debug, PartialEq)]
pub enum Kind {
    Int,
    Float,
    String,
    Bool,
    List(Box<Kind>),
    Class(String),
}

/// `a` is the lower-case ASCII letter `l`, in either case.
pub open spec fn same_letter(a: char, l: char) -> bool {
    a == l || (a as u32) + 32 == (l as u32)
}

/// `s` spells the lower-case word `w`, ignoring ASCII case.
pub open spec fn spells(s: Seq<char>, w: Seq<char>) -> bool {
    s.len() == w.len() && forall|i: int| 0 <= i < s.len() ==> same_letter(s[i], w[i])
}

/// `true` or `false`, in any case.
pub open spec fn bool_literal(s: Seq<char>) -> bool {
    spells(s, seq!['t', 'r', 'u', 'e']) || spells(s, seq!['f', 'a', 'l', 's', 'e'])
}

/// `s` is enclosed in `[` and `]`.
pub open spec fn bracketed(s: Seq<char>) -> bool {
    s.len() >= 2 && s[0] == '[' && s.last() == ']'
}

/// The kind of the default `s`, given whether it reads as an integer and as a
/// float, and the kind `item` of what stands between its brackets: checked
/// in that order, a boolean, an integer, a float, a list, or else a string.
pub open spec fn kind_from(s: Seq<char>, as_int: bool, as_float: bool, item: Kind) -> Kind {
    if bool_literal(s) {
        Kind::Bool
    } else if as_int {
        Kind::Int
    } else if as_float {
        Kind::Float
    } else if bracketed(s) {
        Kind::List(Box::new(item))
    } else {
        Kind::String
    }
}

/// The kind of the default `s`.
pub open spec fn kind_of(s: Seq<char>) -> Kind
    decreases s.len(),
{
    let item = if bracketed(s) {
        kind_of(s.subrange(1, s.len() - 1))
    } else {
        Kind::String
    };
    kind_from(s, int_literal(s), float_literal(s), item)
}

/// How a kind is written in a declaration.
pub open spec fn kind_name(k: Kind) -> Seq<char>
    decreases k,
{
    match k {
        Kind::Int => "int"@,
        Kind::Float => "float"@,
        Kind::String => "str"@,
        Kind::Bool => "bool"@,
        Kind::List(inner) => "list["@ + kind_name(*inner) + "]"@,
        Kind::Class(name) => name@,
    }
}

fn same_letter_exec(a: char, l: char) -> (r: bool)
    requires
        'a' <= l <= 'z',
    ensures
        r == same_letter(a, l),
{
    a == l || (a as u32) == (l as u32) - 32
}

/// Whether `v` spells `w` ignoring ASCII case; `w` is lower case.
fn spells_exec(v: &Vec<char>, w: &Vec<char>) -> (r: bool)
    requires
        forall|i: int| 0 <= i < w@.len() ==> 'a' <= #[trigger] w@[i] <= 'z',
    ensures
        r == spells(v@, w@),
{
    if v.len() != w.len() {
        return false;
    }
    let mut i: usize = 0;
    while i < v.len()
        invariant
            i <= v@.len() == w@.len(),
            forall|j: int| 0 <= j < w@.len() ==> 'a' <= #[trigger] w@[j] <= 'z',
            forall|j: int| 0 <= j < i ==> same_letter(v@[j], w@[j]),
        decreases v@.len() - i,
    {
        if !same_letter_exec(v[i], w[i]) {
            return false;
        }
        i = i + 1;
    }
    true
}

impl Kind {
    /// Infers the kind of a default value from how it is written.
    pub fn from(default: &str) -> (r: Kind)
        ensures
            r == kind_of(default@),
        decreases default@.len(),
    {
        let v = chars_of(default);
        let item = if v.len() >= 2 && v[0] == '[' && v[v.len() - 1] == ']' {
            let inner = string_of(&v, 1, v.len() - 1);
            Kind::from(inner.as_str())
        } else {
            Kind::String
        };
        Kind::from_parts(default, is_int(default), is_float(default), item)
    }

    /// The kind of `default`, given whether it reads as an integer and as a
    /// float, and the kind `item` of what stands between its brackets.
    pub fn from_parts(default: &str, as_int: bool, as_float: bool, item: Kind) -> (r: Kind)
        ensures
            r == kind_from(default@, as_int, as_float, item),
    {
        let v = chars_of(default);
        let t = vec!['t', 'r', 'u', 'e'];
        let f = vec!['f', 'a', 'l', 's', 'e'];
        proof {
            assert(t@ =~= seq!['t', 'r', 'u', 'e']);
            assert(f@ =~= seq!['f', 'a', 'l', 's', 'e']);
        }
        if spells_exec(&v, &t) || spells_exec(&v, &f) {
            Kind::Bool
        } else if as_int {
            Kind::Int
        } else if as_float {
            Kind::Float
        } else if v.len() >= 2 && v[0] == '[' && v[v.len() - 1] == ']' {
            Kind::List(Box::new(item))
        } else {
            Kind::String
        }
    }

    /// The kind as written in a declaration: `int`, `float`, `str`, `bool`,
    /// `list[...]`, or a class name.
    pub fn to_string(&self) -> (r: String)
        ensures
            r@ == kind_name(*self),
        decreases self,
    {
        let mut s = String::new();
        match self {
            Kind::Int => push_str(&mut s, "int"),
            Kind::Float => push_str(&mut s, "float"),
            Kind::String => push_str(&mut s, "str"),
            Kind::Bool => push_str(&mut s, "bool"),
            Kind::List(inner) => {
                push_str(&mut s, "list[");
                let inner_name = inner.to_string();
                push_str(&mut s, inner_name.as_str());
                push_str(&mut s, "]");
            },
            Kind::Class(name) => push_str(&mut s, name.as_str()),
        }
        proof {
            assert(s@ =~= kind_name(*self));
        }
        s
    }
}

/// A named, typed field with its default.
#[derive(Debug, PartialEq)]
pub struct Field {
    name: String,
    kind: Kind,
    default: String,
}

/// The field that a parameter with default `d` gives.
pub open spec fn field_of(p: ParamModel) -> (Seq<char>, Kind, Seq<char>) {
    (p.name, kind_of(p.default->0), p.default->0)
}

impl View for Field {
    type V = (Seq<char>, Kind, Seq<char>);

    closed spec fn view(&self) -> (Seq<char>, Kind, Seq<char>) {
        (self.name@, self.kind, self.default@)
    }
}

/// Why a parameter gives no field.
#[derive(Debug, PartialEq)]
pub enum FieldError {
    /// The parameter has no default; holds its content.
    EmptyDefault(String),
}

impl Field {
    /// The field of a parameter that has a default.
    pub fn try_from(param: &Parameter) -> (r: Result<Field, FieldError>)
        ensures
            r is Ok <==> param@.default is Some,
            r matches Ok(f) ==> f@ == field_of(param@),
            r matches Err(e) ==> (e matches FieldError::EmptyDefault(c) && c@ == param@.content),
    {
        let default = match param.default() {
            Some(d) => d,
            None => {
                let content = param.content();
                let mut c = String::new();
                push_str(&mut c, content);
                proof {
                    assert(c@ =~= param@.content);
                }
                return Err(FieldError::EmptyDefault(c));
            },
        };
        let mut name = String::new();
        push_str(&mut name, param.name());
        let mut value = String::new();
        push_str(&mut value, default);
        let kind = Kind::from(default);
        proof {
            assert(name@ =~= param@.name);
            assert(value@ =~= param@.default->0);
        }
        Ok(Field { name, kind, default: value })
    }

    /// The name.
    pub fn name(&self) -> (r: &str)
        ensures
            r@ == self@.0,
    {
        self.name.as_str()
    }

    /// The kind.
    pub fn kind(&self) -> (r: &Kind)
        ensures
            *r == self@.1,
    {
        &self.kind
    }

    /// The default, as written.
    pub fn default(&self) -> (r: &str)
        ensures
            r@ == self@.2,
    {
        self.default.as_str()
    }
}

/// A template rewritten for a prefix, and the fields of its parameters with
/// a default.
pub struct FieldList {
    source: String,
    fields: Vec<Field>,
}

proof fn lemma_with_default_has_default(ps: Seq<ParamModel>)
    ensures
        forall|k: int|
            0 <= k < with_default(ps).len() ==> (#[trigger] with_default(ps)[k]).default is Some,
    decreases ps.len(),
{
    if ps.len() > 0 {
        lemma_with_default_has_default(ps.drop_last());
    }
}

impl FieldList {
    /// The rewritten text.
    pub closed spec fn source_text(self) -> Seq<char> {
        self.source@
    }

    /// The fields, in order.
    pub closed spec fn field_models(self) -> Seq<(Seq<char>, Kind, Seq<char>)> {
        self.fields@.map_values(|f: Field| f@)
    }

    /// The text rewritten with `prefix` (see `ParameterReplacer::replace`), and
    /// one field for each parameter with a default, in order.
    pub fn new(input: &str, prefix: &str) -> (r: Result<Self, FieldError>)
        ensures
            r matches Ok(l) && l.source_text() == rewritten(input@, prefix@) && l.field_models()
                == with_default(parameters_of(input@)).map_values(
                |p: ParamModel| field_of(p),
            ),
    {
        let replacer = ParameterReplacer::new(input);
        let source = replacer.replace(prefix);
        let with = replacer.parameters_with_default();
        let ghost ws = with_default(parameters_of(input@));
        proof {
            lemma_with_default_has_default(parameters_of(input@));
        }
        let mut fields: Vec<Field> = Vec::new();
        let mut i: usize = 0;
        while i < with.len()
            invariant
                i <= with@.len() == ws.len(),
                ws == with_default(parameters_of(input@)),
                forall|k: int| 0 <= k < ws.len() ==> (#[trigger] with@[k])@ == ws[k],
                forall|k: int| 0 <= k < ws.len() ==> (#[trigger] ws[k]).default is Some,
                fields@.len() == i,
                forall|k: int| 0 <= k < i ==> (#[trigger] fields@[k])@ == field_of(ws[k]),
            decreases with@.len() - i,
        {
            let p = with[i];
            match Field::try_from(p) {
                Ok(f) => fields.push(f),
                Err(e) => {
                    return Err(e);
                },
            }
            i = i + 1;
        }
        proof {
            assert(fields@.map_values(|f: Field| f@) =~= ws.map_values(|p: ParamModel| field_of(p)));
        }
        Ok(FieldList { source, fields })
    }

    /// The rewritten text.
    pub fn source(&self) -> (r: &str)
        ensures
            r@ == self.source_text(),
    {
        self.source.as_str()
    }

    /// The fields, in order.
    pub fn fields(&self) -> (r: &[Field])
        ensures
            r@.map_values(|f: Field| f@) == self.field_models(),
    {
        self.fields.as_slice()
    }

    /// The fields, in order, taken out of the list.
    pub fn into_fields(self) -> (r: Vec<Field>)
        ensures
            r@.map_values(|f: Field| f@) == self.field_models(),
    {
        self.fields
    }
}

/// A field as declared: `name: kind = default`, the default in double
/// quotes when its kind is `str`.
pub open spec fn field_line(f: (Seq<char>, Kind, Seq<char>)) -> Seq<char> {
    let value = if f.1 == Kind::String {
        seq!['"'] + f.2 + seq!['"']
    } else {
        f.2
    };
    f.0 + ": "@ + kind_name(f.1) + " = "@ + value
}

/// The field lines of `fs`, each indented by four spaces and ended by a
/// newline.
pub open spec fn field_lines(fs: Seq<(Seq<char>, Kind, Seq<char>)>) -> Seq<char>
    decreases fs.len(),
{
    if fs.len() == 0 {
        seq![]
    } else {
        field_lines(fs.drop_last()) + "    "@ + field_line(fs.last()) + "\n"@
    }
}

/// Index of the last `c` in `s`, if any.
pub open spec fn last_index(s: Seq<char>, c: char) -> Option<int>
    decreases s.len(),
{
    if s.len() == 0 {
        None
    } else if s.last() == c {
        Some(s.len() - 1)
    } else {
        last_index(s.drop_last(), c)
    }
}

impl Field {
    /// The field as declared in a record.
    pub fn to_string(&self) -> (r: String)
        ensures
            r@ == field_line(self@),
    {
        let mut s = String::new();
        push_str(&mut s, self.name.as_str());
        push_str(&mut s, ": ");
        let k = self.kind.to_string();
        push_str(&mut s, k.as_str());
        push_str(&mut s, " = ");
        let quoted = match self.kind {
            Kind::String => true,
            _ => false,
        };
        if quoted {
            push_char(&mut s, '"');
        }
        push_str(&mut s, self.default.as_str());
        if quoted {
            push_char(&mut s, '"');
        }
        proof {
            assert(s@ =~= field_line(self@));
        }
        s
    }

    /// Splits the name at its last `.`: keeps what follows as the name and
    /// returns what precedes, the group the field belongs to; a name without
    /// a dot is kept and no group is returned.
    pub fn remove_prefix(&mut self) -> (r: Option<String>)
        ensures
            final(self)@.1 == old(self)@.1,
            final(self)@.2 == old(self)@.2,
            match last_index(old(self)@.0, '.') {
                Some(k) => r matches Some(p) && p@ == old(self)@.0.take(k) && final(self)@.0
                    == old(self)@.0.skip(k + 1),
                None => r is None && final(self)@.0 == old(self)@.0,
            },
    {
        let v = chars_of(self.name.as_str());
        let mut i: usize = v.len();
        proof {
            assert(v@.take(i as int) =~= v@);
        }
        while i > 0 && v[i - 1] != '.'
            invariant
                i <= v@.len(),
                last_index(v@, '.') == last_index(v@.take(i as int), '.'),
            decreases i,
        {
            proof {
                assert(v@.take(i as int).drop_last() =~= v@.take(i - 1));
            }
            i = i - 1;
        }
        if i == 0 {
            proof {
                assert(v@.take(0) =~= Seq::<char>::empty());
            }
            return None;
        }
        proof {
            assert(v@.take(i as int).last() == '.');
        }
        let prefix = string_of(&v, 0, i - 1);
        self.name = string_of(&v, i, v.len());
        proof {
            assert(prefix@ =~= v@.take(i - 1));
            assert(self.name@ =~= v@.skip(i as int));
        }
        Some(prefix)
    }
}

/// A record declaration named `name` with fields `fields`.
pub fn declaration(name: &str, fields: &[Field]) -> (r: String)
    ensures
        r@ == "@dataclass\nclass "@ + name@ + ":\n"@ + field_lines(
            fields@.map_values(|f: Field| f@),
        ),
{
    let mut s = String::new();
    push_str(&mut s, "@dataclass\nclass ");
    push_str(&mut s, name);
    push_str(&mut s, ":\n");
    let ghost head = s@;
    let ghost fs = fields@.map_values(|f: Field| f@);
    let mut i: usize = 0;
    while i < fields.len()
        invariant
            i <= fields@.len(),
            fs == fields@.map_values(|f: Field| f@),
            s@ == head + field_lines(fs.take(i as int)),
        decreases fields@.len() - i,
    {
        let line = fields[i].to_string();
        push_str(&mut s, "    ");
        push_str(&mut s, line.as_str());
        push_str(&mut s, "\n");
        proof {
            assert(fs.take(i + 1).drop_last() =~= fs.take(i as int));
            assert(fs.take(i + 1).last() == fields@[i as int]@);
            assert(s@ =~= head + field_lines(fs.take(i + 1)));
        }
        i = i + 1;
    }
    proof {
        assert(fs.take(i as int) =~= fs);
        assert(s@ =~= "@dataclass\nclass "@ + name@ + ":\n"@ + field_lines(fs));
    }
    s
}

/// A field as `(name, kind, default)`.
pub type FieldModel = (Seq<char>, Kind, Seq<char>);

/// The group of a dotted name: what precedes its last `.`, if any.
pub open spec fn group_of(name: Seq<char>) -> Option<Seq<char>> {
    match last_index(name, '.') {
        Some(k) => Some(name.take(k)),
        None => None,
    }
}

/// The name within its group: what follows its last `.`.
pub open spec fn local_name(name: Seq<char>) -> Seq<char> {
    match last_index(name, '.') {
        Some(k) => name.skip(k + 1),
        None => name,
    }
}

/// Index of the first record of `rs`, at or after `i`, named `key`.
pub open spec fn record_index(rs: Seq<(Option<Seq<char>>, Seq<FieldModel>)>, key: Option<Seq<char>>, i: int) -> Option<int>
    decreases rs.len() - i,
{
    if i < 0 || i >= rs.len() {
        None
    } else if rs[i].0 == key {
        Some(i)
    } else {
        record_index(rs, key, i + 1)
    }
}

/// The records of `fs`: each field goes, under its local name, to the record
/// named by its group, which is opened where the group first appears.
pub open spec fn grouped(fs: Seq<FieldModel>) -> Seq<(Option<Seq<char>>, Seq<FieldModel>)>
    decreases fs.len(),
{
    if fs.len() == 0 {
        seq![]
    } else {
        let rs = grouped(fs.drop_last());
        let f = fs.last();
        let key = group_of(f.0);
        let local = (local_name(f.0), f.1, f.2);
        match record_index(rs, key, 0) {
            Some(i) => rs.update(i, (key, rs[i].1.push(local))),
            None => rs.push((key, seq![local])),
        }
    }
}

proof fn lemma_record_index(rs: Seq<(Option<Seq<char>>, Seq<FieldModel>)>, key: Option<Seq<char>>, i: int)
    requires
        0 <= i,
    ensures
        record_index(rs, key, i) matches Some(j) ==> i <= j < rs.len() && rs[j].0 == key,
    decreases rs.len() - i,
{
    if i < rs.len() && rs[i].0 != key {
        lemma_record_index(rs, key, i + 1);
    }
}

/// The fields of one group.
#[derive(Debug, PartialEq)]
pub struct Record {
    name: Option<String>,
    fields: Vec<Field>,
}

impl View for Record {
    type V = (Option<Seq<char>>, Seq<FieldModel>);

    closed spec fn view(&self) -> (Option<Seq<char>>, Seq<FieldModel>) {
        (crate::params::opt_view(self.name), self.fields@.map_values(|f: Field| f@))
    }
}

impl Record {
    /// The group's name; none for fields without a dot.
    pub fn name(&self) -> (r: Option<&str>)
        ensures
            crate::params::opt_str_view(r) == self@.0,
    {
        match &self.name {
            Some(n) => Some(n.as_str()),
            None => None,
        }
    }

    /// The fields, in order, under their local names.
    pub fn fields(&self) -> (r: &[Field])
        ensures
            r@.map_values(|f: Field| f@) == self@.1,
    {
        self.fields.as_slice()
    }
}

/// Whether `a` and `b` name the same group.
fn same_group(a: &Option<String>, b: &Option<String>) -> (r: bool)
    ensures
        r == (crate::params::opt_view(*a) == crate::params::opt_view(*b)),
{
    match (a, b) {
        (Some(x), Some(y)) => *x == *y,
        (None, None) => true,
        _ => false,
    }
}

/// Groups `fields` by the part of their names before the last `.`, in the
/// order in which the groups first appear.
pub fn group_fields(fields: Vec<Field>) -> (r: Vec<Record>)
    ensures
        r@.map_values(|g: Record| g@) == grouped(fields@.map_values(|f: Field| f@)),
{
    let ghost fs = fields@.map_values(|f: Field| f@);
    let n = fields.len();
    let mut rest = fields;
    let mut records: Vec<Record> = Vec::new();
    let mut k: usize = 0;
    proof {
        assert(fs.take(0) =~= Seq::<FieldModel>::empty());
        assert(records@.map_values(|g: Record| g@) =~= Seq::<(Option<Seq<char>>, Seq<FieldModel>)>::empty());
    }
    while rest.len() > 0
        invariant
            k + rest@.len() == n,
            fs.len() == n,
            forall|j: int| 0 <= j < rest@.len() ==> (#[trigger] rest@[j])@ == fs[k + j],
            records@.map_values(|g: Record| g@) == grouped(fs.take(k as int)),
        decreases rest@.len(),
    {
        let ghost old_rest = rest@;
        let mut f = rest.remove(0);
        proof {
            assert(f@ == fs[k as int]);
            assert forall|j: int| 0 <= j < rest@.len() implies (#[trigger] rest@[j])@ == fs[k + 1
                + j] by {
                assert(rest@[j] == old_rest[j + 1]);
            }
        }
        let ghost before = records@.map_values(|g: Record| g@);
        let ghost fm = f@;
        let key = f.remove_prefix();
        let ghost local = (local_name(fm.0), fm.1, fm.2);
        proof {
            assert(f@ == local);
        }
        let mut i: usize = 0;
        let mut found: Option<usize> = None;
        while i < records.len() && found.is_none()
            invariant
                i <= records@.len(),
                before == records@.map_values(|g: Record| g@),
                crate::params::opt_view(key) == group_of(fm.0),
                found matches Some(j) ==> j < records@.len() && record_index(
                    before,
                    group_of(fm.0),
                    0,
                ) == Some(j as int),
                found is None ==> record_index(before, group_of(fm.0), 0) == record_index(
                    before,
                    group_of(fm.0),
                    i as int,
                ),
            decreases records@.len() - i + if found is None {
                1int
            } else {
                0int
            },
        {
            if same_group(&records[i].name, &key) {
                proof {
                    assert(before[i as int] == records@[i as int]@);
                }
                found = Some(i);
            } else {
                i = i + 1;
            }
        }
        proof {
            assert(fs.take(k + 1).drop_last() =~= fs.take(k as int));
            assert(fs.take(k + 1).last() == fm);
            lemma_record_index(before, group_of(fm.0), 0);
        }
        match found {
            Some(i) => {
                let ghost old_records = records@;
                let mut g = records.remove(i);
                let ghost old_fields = g.fields@;
                g.fields.push(f);
                proof {
                    assert(g.fields@.map_values(|x: Field| x@) =~= old_fields.map_values(
                        |x: Field| x@,
                    ).push(local));
                    assert(g@ == (before[i as int].0, before[i as int].1.push(local)));
                }
                records.insert(i, g);
                proof {
                    assert(records@ =~= old_records.update(i as int, g));
                    assert(records@.map_values(|x: Record| x@) =~= before.update(
                        i as int,
                        (group_of(fm.0), before[i as int].1.push(local)),
                    ));
                }
            },
            None => {
                let mut v: Vec<Field> = Vec::new();
                v.push(f);
                let g = Record { name: key, fields: v };
                proof {
                    assert(g.fields@.map_values(|x: Field| x@) =~= seq![local]);
                }
                records.push(g);
                proof {
                    assert(records@.map_values(|x: Record| x@) =~= before.push(
                        (group_of(fm.0), seq![local]),
                    ));
                }
            },
        }
        k = k + 1;
    }
    proof {
        assert(fs.take(k as int) =~= fs);
    }
    records
}

} // verus!
