//! Whole programs: parsed here, evaluated by the library.

use std::cell::RefCell;
use std::rc::Rc;

use fab_lang::analysis::{analyze_closed, analyze_function, walk, Analysis};
use fab_lang::ast::{
    Arg, BinOp, Expr, ExprKind, ModuleInstantiation, Name, Parameter, Program, Span, Stmt, StmtKind, UnOp,
};
use fab_lang::console::nests_deeper_than;
use fab_lang::entry::interpret_fn;
use fab_lang::eval::{Config, Ctx};
use fab_lang::generate::{bake_entry, generate_module, generate_native, generated_entries, Source};
use fab_lang::geo::{boolean_of, transform_of, union_of, Geo, GeoNode, Mesh};
use fab_lang::geom::{Affine, Tri, Vec3};
use fab_lang::hoist::{flatten_blocks, hoisted_assignments};
use fab_lang::host::{JitOutcome, Reply};
use fab_lang::intrinsics::{
    arm_guarded_intrinsics, Entry, IntrinsicMatrixStatus, Registry,
};
use fab_lang::islands::{
    collect_module_defs, function_defs, program_island, resolve_module, stmt_refs, tagged_functions, Island,
};
use fab_lang::iterate::iter_values;
use fab_lang::jit::{answer_offer, compile_functions, offer, NumericJit, NumericJitFactory};
use fab_lang::machine::Task;
use fab_lang::message::{Error, Failure, Message};
use fab_lang::mod_cache::{worth_caching, Counts, ModCache, ModKey};
use fab_lang::modules::{native_module_runs, Begun, CallChildren, Modules, NativeModuleCtx};
use fab_lang::names::NameSet;
use fab_lang::native::ValArg;
use fab_lang::num::FloatOp;
use fab_lang::object::ObjectMap;
use fab_lang::primitives::Primitive;
use fab_lang::redundancy::{call_id, hash_value, ModRedundancy, Redundancy};
use fab_lang::resolve::{
    build_ctx, eval_program, evaluate_geometry_metered, jit_consts, jit_defs, request_file, require_matrix, JitConst, JitDef,
    resolve_intrinsic_matrix, resolve_source, Driven, Graph, Imported, Requested, Resolution, SourceNeed,
};
use fab_lang::rng::rands;
use fab_lang::scope::{Scope, Store};
use fab_lang::static_diag::{overwritten_assignments, verdict, FileInfo, Overwrite, Verdict};
use fab_lang::trace::Tracer;
use fab_lang::value::Value;

fn fpu(op: FloatOp, a: u64, b: u64) -> u64 {
    let (x, y) = (f64::from_bits(a), f64::from_bits(b));
    let r = match op {
        FloatOp::Add => x + y,
        FloatOp::Sub => x - y,
        FloatOp::Mul => x * y,
        FloatOp::Div => x / y,
        FloatOp::Rem => x % y,
        FloatOp::Pow => x.powf(y),
        FloatOp::Sqrt => x.sqrt(),
        FloatOp::Floor => x.floor(),
        FloatOp::Sin => x.sin(),
        FloatOp::Cos => x.cos(),
        FloatOp::Tan => x.tan(),
        FloatOp::Asin => x.asin(),
        FloatOp::Acos => x.acos(),
        FloatOp::Atan => x.atan(),
        FloatOp::Atan2 => x.atan2(y),
        FloatOp::Round => x.round(),
        FloatOp::Degrees => x.to_degrees(),
        FloatOp::FromInt => (a as i64) as f64,
        FloatOp::Midpoint => x + (y - x) / 2.0,
    };
    r.to_bits()
}

fn name(s: &str) -> Name {
    Rc::new(s.to_string())
}

fn names(ss: &[&str]) -> Vec<Name> {
    ss.iter().map(|s| name(s)).collect()
}

fn num(x: f64) -> Value {
    Value::Num(x.to_bits())
}

/// One lexeme with where it stands.
#[derive(Clone)]
struct Lex {
    text: String,
    start: usize,
    end: usize,
    is_text: bool,
}

fn lex(src: &str) -> Vec<Lex> {
    let b = src.as_bytes();
    let mut out = Vec::new();
    let mut i = 0;
    while i < b.len() {
        let c = b[i] as char;
        let start = i;
        if c.is_whitespace() {
            i += 1;
            continue;
        }
        if c == '/' && i + 1 < b.len() && b[i + 1] == b'/' {
            while i < b.len() && b[i] != b'\n' {
                i += 1;
            }
            continue;
        }
        let word = |c: u8| c.is_ascii_alphanumeric() || c == b'_' || c == b'$';
        if c.is_ascii_digit() {
            while i < b.len() && (b[i].is_ascii_digit() || b[i] == b'.') {
                i += 1;
            }
            if i < b.len() && b[i] == b'e' {
                i += 1;
                if i < b.len() && (b[i] == b'-' || b[i] == b'+') {
                    i += 1;
                }
                while i < b.len() && b[i].is_ascii_digit() {
                    i += 1;
                }
            }
        } else if word(b[i]) {
            while i < b.len() && word(b[i]) {
                i += 1;
            }
        } else if c == '"' {
            i += 1;
            while b[i] != b'"' {
                i += 1;
            }
            i += 1;
            out.push(Lex { text: src[start + 1..i - 1].to_string(), start, end: i, is_text: true });
            continue;
        } else {
            let two = if i + 2 <= b.len() { &src[i..i + 2] } else { "" };
            i += if ["==", "!=", "<=", ">=", "&&", "||", "<<", ">>"].contains(&two) { 2 } else { 1 };
        }
        out.push(Lex { text: src[start..i].to_string(), start, end: i, is_text: false });
    }
    out
}

struct Parser {
    toks: Vec<Lex>,
    at: usize,
    src: String,
}

impl Parser {
    fn peek(&self) -> &str {
        match self.toks.get(self.at) {
            Some(t) if !t.is_text => &t.text,
            _ => "",
        }
    }

    fn next(&mut self) -> Lex {
        let t = self.toks[self.at].clone();
        self.at += 1;
        t
    }

    fn eat(&mut self, s: &str) -> bool {
        if self.peek() == s {
            self.at += 1;
            true
        } else {
            false
        }
    }

    fn want(&mut self, s: &str) {
        assert!(self.eat(s), "wanted {s} at {:?}", self.toks.get(self.at).map(|t| t.text.clone()));
    }

    fn here(&self) -> usize {
        self.toks.get(self.at).map_or(self.src.len(), |t| t.start)
    }

    fn expr_at(&self, kind: ExprKind, start: usize) -> Expr {
        Expr { kind, span: Span { start, end: self.toks[self.at - 1].end } }
    }

    fn is_named(&self) -> bool {
        let word = |t: &Lex| !t.is_text && t.text.starts_with(|c: char| c.is_ascii_alphabetic() || c == '_' || c == '$');
        self.at + 1 < self.toks.len() && word(&self.toks[self.at]) && self.toks[self.at + 1].text == "="
    }

    fn arg(&mut self) -> Arg {
        let name = if self.is_named() {
            let n = self.next().text;
            self.want("=");
            Some(Rc::new(n))
        } else {
            None
        };
        Arg { name, value: self.expr() }
    }

    fn args_until(&mut self, close: &str) -> Vec<Arg> {
        let mut out = Vec::new();
        while self.peek() != close {
            out.push(self.arg());
            if !self.eat(",") {
                break;
            }
        }
        self.want(close);
        out
    }

    fn params(&mut self) -> Vec<Parameter> {
        self.want("(");
        let mut out = Vec::new();
        while self.peek() != ")" {
            let n = Rc::new(self.next().text);
            let default = if self.eat("=") { Some(self.expr()) } else { None };
            out.push(Parameter { name: n, default });
            if !self.eat(",") {
                break;
            }
        }
        self.want(")");
        out
    }

    fn expr(&mut self) -> Expr {
        let start = self.here();
        match self.peek() {
            "let" => {
                self.at += 1;
                self.want("(");
                let bindings = self.args_until(")");
                let body = Box::new(self.expr());
                return self.expr_at(ExprKind::Let { bindings, body }, start);
            }
            "function" => {
                self.at += 1;
                let params = self.params();
                let body = Box::new(self.expr());
                return self.expr_at(ExprKind::FunctionLiteral { params, body, repr: name("function") }, start);
            }
            "assert" | "echo" => {
                let kind = self.next().text;
                self.want("(");
                let args = self.args_until(")");
                let shown = args.first().map_or("", |a| self.src[a.value.span.start..a.value.span.end].trim());
                let shown = name(shown);
                let body = if [";", ")", ",", "]", ""].contains(&self.peek()) {
                    None
                } else {
                    Some(Box::new(self.expr()))
                };
                let kind = if kind == "assert" {
                    ExprKind::Assert { args, body, shown }
                } else {
                    ExprKind::Echo { args, body }
                };
                return self.expr_at(kind, start);
            }
            _ => {}
        }
        let cond = self.binary(0);
        if self.eat("?") {
            let yes = Box::new(self.expr());
            self.want(":");
            let no = Box::new(self.expr());
            return self.expr_at(ExprKind::Ternary { cond: Box::new(cond), yes, no }, start);
        }
        cond
    }

    fn binary(&mut self, level: usize) -> Expr {
        let levels: [&[(&str, BinOp)]; 7] = [
            &[("||", BinOp::Or)],
            &[("&&", BinOp::And)],
            &[("==", BinOp::Eq), ("!=", BinOp::Ne)],
            &[("<", BinOp::Lt), ("<=", BinOp::Le), (">", BinOp::Gt), (">=", BinOp::Ge)],
            &[("<<", BinOp::Shl), (">>", BinOp::Shr)],
            &[("+", BinOp::Add), ("-", BinOp::Sub)],
            &[("*", BinOp::Mul), ("/", BinOp::Div), ("%", BinOp::Mod)],
        ];
        if level == levels.len() {
            return self.unary();
        }
        let start = self.here();
        let mut lhs = self.binary(level + 1);
        while let Some((_, op)) = levels[level].iter().find(|(s, _)| *s == self.peek()) {
            self.at += 1;
            let rhs = self.binary(level + 1);
            lhs = self.expr_at(ExprKind::Binary { op: *op, lhs: Box::new(lhs), rhs: Box::new(rhs) }, start);
        }
        lhs
    }

    fn unary(&mut self) -> Expr {
        let start = self.here();
        let op = match self.peek() {
            "-" => UnOp::Neg,
            "+" => UnOp::Pos,
            "!" => UnOp::Not,
            _ => return self.postfix(),
        };
        self.at += 1;
        let operand = Box::new(self.unary());
        self.expr_at(ExprKind::Unary { op, operand }, start)
    }

    fn postfix(&mut self) -> Expr {
        let start = self.here();
        let mut e = self.primary();
        loop {
            if self.eat("(") {
                let args = self.args_until(")");
                e = self.expr_at(ExprKind::Call { callee: Box::new(e), args }, start);
            } else if self.eat("[") {
                let index = Box::new(self.expr());
                self.want("]");
                e = self.expr_at(ExprKind::Index { base: Box::new(e), index }, start);
            } else if self.eat(".") {
                let field = Rc::new(self.next().text);
                e = self.expr_at(ExprKind::Member { base: Box::new(e), field }, start);
            } else {
                return e;
            }
        }
    }

    fn primary(&mut self) -> Expr {
        let start = self.here();
        let t = self.next();
        let kind = if t.is_text {
            ExprKind::Str(Rc::new(t.text))
        } else if t.text.starts_with(|c: char| c.is_ascii_digit()) {
            ExprKind::Num(t.text.parse::<f64>().unwrap().to_bits())
        } else {
            match t.text.as_str() {
                "true" => ExprKind::Bool(true),
                "false" => ExprKind::Bool(false),
                "undef" => ExprKind::Undef,
                "(" => {
                    let e = self.expr();
                    self.want(")");
                    return e;
                }
                "[" => return self.vector(start),
                _ => ExprKind::Ident(Rc::new(t.text)),
            }
        };
        self.expr_at(kind, start)
    }

    fn vector(&mut self, start: usize) -> Expr {
        if self.eat("]") {
            return self.expr_at(ExprKind::Vector(Vec::new()), start);
        }
        let first = self.element();
        if self.eat(":") {
            let second = self.expr();
            let (step, end) = if self.eat(":") {
                (Some(Box::new(second)), self.expr())
            } else {
                (None, second)
            };
            self.want("]");
            return self.expr_at(ExprKind::Range { start: Box::new(first), step, end: Box::new(end) }, start);
        }
        let mut items = vec![first];
        while self.eat(",") {
            if self.peek() == "]" {
                break;
            }
            items.push(self.element());
        }
        self.want("]");
        self.expr_at(ExprKind::Vector(items), start)
    }

    fn element(&mut self) -> Expr {
        let start = self.here();
        match self.peek() {
            "for" => {
                self.at += 1;
                self.want("(");
                let mut first = Vec::new();
                while self.peek() != ")" && self.peek() != ";" {
                    first.push(self.arg());
                    if !self.eat(",") {
                        break;
                    }
                }
                if self.eat(";") {
                    let cond = Box::new(self.expr());
                    self.want(";");
                    let update = self.args_until(")");
                    let body = Box::new(self.element());
                    return self.expr_at(ExprKind::LcForC { init: first, cond, update, body }, start);
                }
                self.want(")");
                let body = Box::new(self.element());
                self.expr_at(ExprKind::LcFor { bindings: first, body }, start)
            }
            "if" => {
                self.at += 1;
                self.want("(");
                let cond = Box::new(self.expr());
                self.want(")");
                let yes = Box::new(self.element());
                let no = if self.eat("else") { Some(Box::new(self.element())) } else { None };
                self.expr_at(ExprKind::LcIf { cond, yes, no }, start)
            }
            "each" => {
                self.at += 1;
                let body = Box::new(self.element());
                self.expr_at(ExprKind::LcEach(body), start)
            }
            "let" => {
                self.at += 1;
                self.want("(");
                let bindings = self.args_until(")");
                let body = Box::new(self.element());
                self.expr_at(ExprKind::Let { bindings, body }, start)
            }
            _ => self.expr(),
        }
    }

    fn stmts_until(&mut self, close: &str) -> Vec<Stmt> {
        let mut out = Vec::new();
        while self.at < self.toks.len() && self.peek() != close {
            out.push(self.stmt());
        }
        out
    }

    fn block(&mut self) -> Vec<Stmt> {
        if self.eat("{") {
            let inner = self.stmts_until("}");
            self.want("}");
            inner
        } else {
            let s = self.stmt();
            match s.kind {
                StmtKind::Empty => Vec::new(),
                _ => vec![s],
            }
        }
    }

    fn path(&mut self) -> Name {
        self.want("<");
        let from = self.here();
        while self.peek() != ">" {
            self.at += 1;
        }
        let raw = self.src[from..self.here()].to_string();
        self.want(">");
        Rc::new(raw)
    }

    fn stmt(&mut self) -> Stmt {
        let start = self.here();
        let kind = match self.peek() {
            ";" => {
                self.at += 1;
                StmtKind::Empty
            }
            "{" => StmtKind::Block(self.block()),
            "use" => {
                self.at += 1;
                StmtKind::Use(self.path())
            }
            "function" => {
                self.at += 1;
                let n = Rc::new(self.next().text);
                let from = self.at;
                let params = self.params();
                self.want("=");
                let body = self.expr();
                let fp = fingerprint(&self.toks[from..self.at]);
                self.want(";");
                StmtKind::FunctionDef { name: n, params, body, repr: name("function"), fp }
            }
            "module" => {
                self.at += 1;
                let n = Rc::new(self.next().text);
                let params = self.params();
                let body = Box::new(self.stmt());
                StmtKind::ModuleDef { name: n, params, body }
            }
            "if" => {
                self.at += 1;
                self.want("(");
                let cond = self.expr();
                self.want(")");
                let yes = self.block();
                let no = if self.eat("else") { self.block() } else { Vec::new() };
                StmtKind::If { cond, yes, no }
            }
            "include" => {
                self.at += 1;
                StmtKind::Include(self.path())
            }
            _ if self.is_named() => {
                let n = Rc::new(self.next().text);
                self.want("=");
                let value = self.expr();
                self.want(";");
                StmtKind::Assignment { name: n, value }
            }
            _ => {
                let n = Rc::new(self.next().text);
                self.want("(");
                let args = self.args_until(")");
                let children = self.block();
                StmtKind::Module(ModuleInstantiation { name: n, args, children })
            }
        };
        Stmt { kind, span: Span { start, end: self.toks[self.at - 1].end } }
    }
}

/// The fingerprint of a function: of the lexemes of its parameters and its body.
fn fingerprint(toks: &[Lex]) -> u64 {
    let mut h: u64 = 0xcbf2_9ce4_8422_2325;
    for t in toks {
        for b in t.text.bytes().chain([0]) {
            h = (h ^ u64::from(b)).wrapping_mul(0x100_0000_01b3);
        }
    }
    h
}

fn parse(src: &str) -> Program {
    let mut p = Parser { toks: lex(src), at: 0, src: src.to_string() };
    let stmts = p.stmts_until("}");
    assert_eq!(p.at, p.toks.len(), "trailing text in {src}");
    Program { stmts }
}

const BUILTINS: [&str; 14] = [
    "len", "max", "abs", "rands", "is_undef", "is_list", "is_num", "is_bool", "is_string", "str", "floor", "min",
    "norm", "parent_module",
];

fn show(v: &Value) -> String {
    match v {
        Value::Undef => "undef".to_string(),
        Value::Bool(b) => b.to_string(),
        Value::Num(n) => f64::from_bits(*n).to_string(),
        Value::Str(s) => format!("\"{s}\""),
        Value::NumList(xs) => {
            let parts: Vec<String> = xs.iter().map(|n| f64::from_bits(*n).to_string()).collect();
            format!("[{}]", parts.join(", "))
        }
        Value::List(xs) => {
            let parts: Vec<String> = xs.0.iter().map(show).collect();
            format!("[{}]", parts.join(", "))
        }
        other => format!("{other:?}"),
    }
}

fn number(v: Option<&Value>) -> f64 {
    match v {
        Some(Value::Num(n)) => f64::from_bits(*n),
        _ => f64::NAN,
    }
}

/// What a builtin gives, and how many random numbers were drawn by then.
fn builtin(name: &str, vals: &[Value], draws: u64) -> (Value, u64) {
    let nums = || vals.iter().map(|v| number(Some(v)));
    let v = match name {
        "len" => match vals.first() {
            Some(Value::NumList(xs)) => num(xs.len() as f64),
            Some(Value::List(xs)) => num(xs.0.len() as f64),
            Some(Value::Str(s)) => num(s.chars().count() as f64),
            _ => Value::Undef,
        },
        "max" => num(nums().fold(f64::NEG_INFINITY, f64::max)),
        "min" => num(nums().fold(f64::INFINITY, f64::min)),
        "abs" => num(number(vals.first()).abs()),
        "floor" => num(number(vals.first()).floor()),
        "is_undef" => Value::Bool(matches!(vals.first(), Some(Value::Undef))),
        "is_list" => Value::Bool(matches!(vals.first(), Some(Value::NumList(_) | Value::List(_)))),
        "is_num" => Value::Bool(matches!(vals.first(), Some(Value::Num(_)))),
        "is_bool" => Value::Bool(matches!(vals.first(), Some(Value::Bool(_)))),
        "is_string" => Value::Bool(matches!(vals.first(), Some(Value::Str(_)))),
        "str" => Value::string(&vals.iter().map(show).collect::<String>()),
        "rands" => {
            let (min, max, count) = (number(vals.first()), number(vals.get(1)), number(vals.get(2)) as usize);
            if let Some(Value::Num(seed)) = vals.get(3) {
                let seed = f64::from_bits(*seed) as u32;
                Value::num_list(rands(min.to_bits(), max.to_bits(), count, Some(seed), &fpu))
            } else {
                let all = rands(min.to_bits(), max.to_bits(), draws as usize + count, None, &fpu);
                return (Value::num_list(all[draws as usize..].to_vec()), draws + count as u64);
            }
        }
        _ => Value::Undef,
    };
    (v, draws)
}

/// What the native versions of the registry give.
fn native(name: &str, vals: &[Value]) -> Value {
    match name {
        "point3d" => {
            let fill = vals.get(1).cloned().unwrap_or(num(0.0));
            let at = |i: usize| match vals.first() {
                Some(Value::NumList(xs)) => xs.get(i).map_or(fill.clone(), |n| Value::Num(*n)),
                Some(Value::List(xs)) => match xs.0.get(i) {
                    None | Some(Value::Undef) => fill.clone(),
                    Some(v) => v.clone(),
                },
                _ => Value::Undef,
            };
            fab_lang::value::build_vector(vec![at(0), at(1), at(2)])
        }
        "_fab_poc_near0" => Value::Bool(number(vals.first()).abs() < 1e-9),
        "_fab_poc_isup" => {
            Value::Bool(vals[0].eq(&Value::num_list([0.0, 0.0, 1.0_f64].map(f64::to_bits).to_vec()), &fpu))
        }
        _ => Value::Undef,
    }
}

fn texts(vals: &[Value]) -> Reply {
    Reply::Texts(vals.iter().map(show).collect())
}

/// A compiler of one function. Its squares are marked, so that a compiled call shows.
struct Squares;

impl NumericJit for Squares {
    fn call_numeric(&self, name: &Name, args: &Vec<Value>, draws: u64) -> Option<(JitOutcome, u64)> {
        match (name.as_str(), args.as_slice()) {
            ("sq", [Value::Num(n)]) => {
                let x = f64::from_bits(*n);
                Some((JitOutcome::Num((x * x + 1000.0).to_bits()), draws))
            }
            _ => None,
        }
    }
}

impl NumericJitFactory for Squares {
    type Jit = Squares;

    fn compile<'a>(&self, defs: &Vec<JitDef<'a>>, consts: &Vec<JitConst<'a>>, enabled: bool) -> Option<Squares> {
        let known = defs.iter().any(|d| d.name.as_str() == "sq" && d.params.len() == 1);
        let limit = consts.iter().any(|c| c.name.as_str() == "LIMIT" && matches!(c.value.kind, ExprKind::Num(_)));
        let special = consts.iter().any(|c| c.name.starts_with('$'));
        (enabled && known && limit && !special).then_some(Squares)
    }
}

fn host(t: &Task<'_>, draws: u64, _modules: &Vec<Name>) -> Reply {
    match t {
        Task::AwaitBuiltin { name, vals, .. } => {
            let (value, draws) = builtin(name, vals, draws);
            Reply::Built { value, messages: Vec::new(), draws }
        }
        Task::AwaitNative { name, vals } => Reply::Native(Ok(native(name, vals))),
        Task::AwaitEcho { vals, .. } => texts(vals),
        Task::AwaitAssert { value, .. } => texts(&[value.clone()]),
        Task::AwaitJit(c) => offer(&Some(Squares), c, draws),
        _ => Reply::Memo { hit: None, token: None },
    }
}

const FUEL: u64 = u64::MAX;

fn plain() -> Config {
    Config { eval_budget: None, jit: false, eval_cache: false }
}

fn no_registry() -> Registry {
    Registry { entries: Vec::new(), pins: Vec::new() }
}

/// The value of the last assignment of a program, each evaluated in the scope that those before it made.
fn eval_with(src: &str, config: Config) -> Result<Value, Error> {
    let prog = parse(src);
    let (mut ctx, mut scope) = build_ctx(&prog, names(&BUILTINS), &no_registry(), config);
    let mut last = Value::Undef;
    for stmt in &prog.stmts {
        if let StmtKind::Assignment { name, value } = &stmt.kind {
            ctx.globals[0] = scope;
            last = ctx.eval_with_ctx(value, scope, &fpu, &host, FUEL)?;
            scope.bind(&mut ctx.store, name.clone(), last.clone());
        }
    }
    Ok(last)
}

fn eval_last(src: &str) -> Value {
    eval_with(src, plain()).expect("evaluates")
}

fn eval_budgeted(src: &str, budget: Option<u64>) -> Result<Value, Error> {
    eval_with(src, Config { eval_budget: budget, ..plain() })
}

fn gives(src: &str, want: Value) {
    let got = eval_last(src);
    assert!(got.eq(&want, &fpu), "{src}: {got:?}, not {want:?}");
}

fn message(e: &Error) -> String {
    match e {
        Error::Eval(s) | Error::Assert(s) | Error::Unimplemented(s) => s.clone(),
        Error::Unknown(s) | Error::Load(s) | Error::Parse(s) => s.clone(),
        Error::Unfinished => "unfinished".to_string(),
    }
}

/// The children of the module call that is running.
#[derive(Clone)]
struct Kids<'a> {
    stmts: Vec<&'a Stmt>,
    scope: Scope,
}

/// What a run of statements needs beside the evaluator.
struct World<'a> {
    stmts: Vec<&'a Stmt>,
    islands: Vec<Island<'a>>,
    files: Option<Vec<(Name, Imported)>>,
    cache: RefCell<Option<ModCache>>,
    needs: RefCell<NameSet>,
}

impl<'a> World<'a> {
    fn new(prog: &'a Program, cached: bool) -> World<'a> {
        let stmts = stmt_refs(prog);
        let island = Island {
            modules: collect_module_defs(&stmts),
            functions: function_defs(&stmts),
            assignments: hoisted_assignments(&stmts),
            uses: Vec::new(),
        };
        World {
            stmts,
            islands: vec![island],
            files: None,
            cache: RefCell::new(if cached { Some(ModCache::new()) } else { None }),
            needs: RefCell::new(NameSet::new()),
        }
    }

    fn inside(
        &self,
        ctx: &mut Ctx<'a>,
        stmts: &Vec<&'a Stmt>,
        scope: Scope,
        kids: &Option<Kids<'a>>,
    ) -> Result<Vec<Geo>, Error> {
        let scope = ctx.hoist_scope(stmts, scope, &fpu, &host, FUEL)?;
        self.walk(ctx, stmts, scope, kids)
    }

    /// Runs statements whose scope is bound.
    fn walk(
        &self,
        ctx: &mut Ctx<'a>,
        stmts: &Vec<&'a Stmt>,
        scope: Scope,
        kids: &Option<Kids<'a>>,
    ) -> Result<Vec<Geo>, Error> {
        let mut out = Vec::new();
        for s in flatten_blocks(stmts) {
            match &s.kind {
                StmtKind::If { cond, yes, no } => {
                    let picked = if ctx.eval_with_ctx(cond, scope, &fpu, &host, FUEL)?.is_truthy() { yes } else { no };
                    out.append(&mut self.inside(ctx, &picked.iter().collect(), scope, kids)?);
                }
                StmtKind::Module(mi) => out.append(&mut self.call(ctx, mi, scope, kids)?),
                _ => {}
            }
        }
        Ok(out)
    }

    fn call(
        &self,
        ctx: &mut Ctx<'a>,
        mi: &'a ModuleInstantiation,
        scope: Scope,
        kids: &Option<Kids<'a>>,
    ) -> Result<Vec<Geo>, Error> {
        let children: Vec<&'a Stmt> = mi.children.iter().collect();
        if let Some((def, _, _)) = resolve_module(&self.islands, &Vec::new(), 0, &mi.name) {
            let home = ctx.globals[0];
            let mut call = ctx.bind_module_scope(def.params, &mi.args, scope, home, &fpu, &host, FUEL)?;
            let objects = children.iter().filter(|s| matches!(s.kind, StmtKind::Module(_) | StmtKind::If { .. }));
            let count = objects.count();
            call.bind(&mut ctx.store, name("$children"), num(count as f64));
            return self.body(ctx, def.body, def.params, home, call, Kids { stmts: children, scope }, count);
        }
        match mi.name.as_str() {
            "echo" => {
                ctx.emit_echo(&mi.args, scope, &fpu, &host, FUEL)?;
                Ok(Vec::new())
            }
            "for" => {
                let over = ctx.eval_with_ctx(&mi.args[0].value, scope, &fpu, &host, FUEL)?;
                let mut out = Vec::new();
                for v in iter_values(&over, &fpu).0 {
                    let mut turn = scope.child(&mut ctx.store);
                    turn.bind(&mut ctx.store, mi.args[0].name.clone().unwrap(), v);
                    out.append(&mut self.inside(ctx, &children, turn, kids)?);
                }
                Ok(out)
            }
            "children" => match kids {
                Some(k) => {
                    let frame = Scope::call_frame(&mut ctx.store, &k.scope, &scope);
                    self.inside(ctx, &k.stmts, frame, &None)
                }
                None => Ok(Vec::new()),
            },
            "union" | "difference" | "intersection" => {
                let args = ctx.module_args(mi, scope, &fpu, &host, FUEL)?;
                let objects = self.inside(ctx, &children, args.scope, kids)?;
                Ok(vec![boolean_of(&mi.name, objects, &mut ctx.messages)])
            }
            "translate" => {
                let args = ctx.module_args(mi, scope, &fpu, &host, FUEL)?;
                let by = match &args.positional[0] {
                    Value::NumList(xs) => [xs[0], xs[1], xs[2]],
                    other => panic!("translate by {other:?}"),
                };
                let objects = self.inside(ctx, &children, args.scope, kids)?;
                let all = union_of(objects, &mut ctx.messages);
                let (o, l) = (0.0_f64.to_bits(), 1.0_f64.to_bits());
                let m = Affine::row_major([l, o, o, by[0], o, l, o, by[1], o, o, l, by[2]]);
                Ok(vec![transform_of(m, all)])
            }
            _ => {
                let args = ctx.module_args(mi, scope, &fpu, &host, FUEL)?;
                Ok(match ctx.primitive(&mi.name, &args, &fpu) {
                    Primitive::Sphere { fine } => {
                        vec![solid(&[fine.r, fine.fn_, fine.fa, fine.fs])]
                    }
                    Primitive::Cube { size, center } => {
                        vec![solid(&[size[0], size[1], size[2], u64::from(center)])]
                    }
                    Primitive::Import { file } => {
                        match request_file(file, self.files.as_ref(), &mut self.needs.borrow_mut()) {
                            Requested::Known(_) => vec![solid(&[])],
                            Requested::Missing(_) => Vec::new(),
                        }
                    }
                    other => panic!("no shape for {other:?}"),
                })
            }
        }
    }

    /// Runs the body of a module, or remembers it.
    fn body(
        &self,
        ctx: &mut Ctx<'a>,
        body: &'a Stmt,
        params: &'a Vec<Parameter>,
        home: Scope,
        call: Scope,
        kids: Kids<'a>,
        count: usize,
    ) -> Result<Vec<Geo>, Error> {
        let values = ctx.bound_args(params, call);
        let cached = self.cache.borrow().is_some() && count == 0 && worth_caching(&values, 64);
        if !cached {
            let objects = self.inside(ctx, &vec![body], call, &Some(kids))?;
            return Ok(vec![union_of(objects, &mut ctx.messages)]);
        }
        let key = || ModKey::new(body.span.start as u64, &home, &values);
        let hit = {
            let mut cache = self.cache.borrow_mut();
            cache.as_mut().unwrap().get(&key(), &ctx.store, &call, &mut ctx.captures)
        };
        if let Some(geo) = hit {
            return Ok(vec![copy(&geo)]);
        }
        let entry = call.boundary_id(&ctx.store);
        ctx.captures.open_capture(entry);
        let before = ctx.purity();
        let ran = self.inside(ctx, &vec![body], call, &Some(kids));
        let after = ctx.purity();
        let reads = ctx.captures.capture_reads(entry);
        ctx.captures.close_capture(entry);
        let geo = union_of(ran?, &mut ctx.messages);
        let (msg, draws) = (before.messages != after.messages, before.draws != after.draws);
        let impure = before.impure_reads != after.impure_reads;
        let mut cache = self.cache.borrow_mut();
        let cache = cache.as_mut().unwrap();
        if msg || draws || impure {
            cache.note_decline(msg, draws, impure);
        } else if let Some(reads) = reads {
            cache.put(key(), Rc::new(copy(&geo)), reads, 64);
        }
        Ok(vec![geo])
    }

    fn drive(&self, mut ctx: Ctx<'a>, scope: Scope) -> Driven<'a> {
        let nodes = self.walk(&mut ctx, &self.stmts, scope, &None).map_err(Failure::nowhere);
        let needs = self.needs.replace(NameSet::new());
        Driven { ctx, nodes, root: Vec::new(), needs }
    }

    fn counts(&self) -> Counts {
        self.cache.borrow().as_ref().unwrap().stats()
    }
}

/// A stand-in for a solid: a mesh that holds what the solid is made with.
fn solid(made_with: &[u64]) -> Geo {
    let mut mesh = Mesh::new();
    for m in made_with {
        mesh.verts.push(Vec3::new(*m, 0, 0));
    }
    mesh.tris.push(Tri::new(0, 1, 2));
    Geo::D3(GeoNode::Leaf(mesh))
}

fn copy_node(n: &GeoNode) -> GeoNode {
    let all = |ns: &Vec<GeoNode>| ns.iter().map(copy_node).collect();
    match n {
        GeoNode::Empty => GeoNode::Empty,
        GeoNode::Leaf(m) => {
            let mut mesh = Mesh::new();
            mesh.verts.extend(m.verts.iter().copied());
            mesh.tris.extend(m.tris.iter().copied());
            GeoNode::Leaf(mesh)
        }
        GeoNode::Transform { matrix, child } => {
            GeoNode::Transform { matrix: *matrix, child: Box::new(copy_node(child)) }
        }
        GeoNode::Color { color, child } => GeoNode::Color { color: *color, child: Box::new(copy_node(child)) },
        GeoNode::Union(ns) => GeoNode::Union(all(ns)),
        GeoNode::Difference(ns) => GeoNode::Difference(all(ns)),
        GeoNode::Intersection(ns) => GeoNode::Intersection(all(ns)),
        GeoNode::Parts(ns) => GeoNode::Parts(all(ns)),
    }
}

fn copy(g: &Geo) -> Geo {
    match g {
        Geo::D3(n) => Geo::D3(copy_node(n)),
        Geo::D2(s) => panic!("a flat shape: {s:?}"),
    }
}

/// Evaluates a program with its files at hand.
fn resolve(src: &str, registry: &Registry, files: Option<Vec<(Name, Imported)>>) -> Result<Resolution, Failure> {
    let prog = parse(src);
    let missing: Vec<(Name, Name)> = prog
        .stmts
        .iter()
        .filter_map(|s| match &s.kind {
            StmtKind::Use(raw) | StmtKind::Include(raw) => Some((name("."), raw.clone())),
            _ => None,
        })
        .collect();
    if !missing.is_empty() {
        let none = World::new(&prog, false);
        return resolve_source(
            &Graph::Incomplete(missing),
            names(&BUILTINS),
            registry,
            plain(),
            false,
            &|c, g| none.drive(c, g),
            &fpu,
            &host,
            FUEL,
        );
    }
    let mut world = World::new(&prog, false);
    world.files = files;
    let graph = Graph::Complete { stmts: stmt_refs(&prog), islands: World::new(&prog, false).islands };
    resolve_source(
        &graph,
        names(&BUILTINS),
        registry,
        plain(),
        false,
        &|c, g| world.drive(c, g),
        &fpu,
        &host,
        FUEL,
    )
}

/// The console output of a program.
fn run_echo(src: &str, registry: &Registry) -> String {
    match resolve(src, registry, None).expect("resolves") {
        Resolution::Complete { messages, .. } => {
            messages.iter().map(Message::render).collect::<Vec<_>>().join("\n")
        }
        other => panic!("expected Complete, got {other:?}"),
    }
}

/// The geometry and the messages of a program, with the shapes of module calls remembered or not.
fn run(src: &str, cached: bool) -> (Geo, Vec<Message>, Counts) {
    let prog = parse(src);
    let world = World::new(&prog, cached);
    let graph = Graph::Complete { stmts: stmt_refs(&prog), islands: World::new(&prog, false).islands };
    let drive = |c, g| world.drive(c, g);
    let r = resolve_source(&graph, names(&BUILTINS), &no_registry(), plain(), false, &drive, &fpu, &host, FUEL);
    match r.expect("resolves") {
        Resolution::Complete { geo, messages } => {
            let counts = if cached { world.counts() } else { ModCache::new().stats() };
            (geo, messages, counts)
        }
        other => panic!("expected Complete, got {other:?}"),
    }
}

fn shape(src: &str, cached: bool) -> String {
    format!("{:?}", run(src, cached).0)
}

// The texts that native versions were written against.

const IS_NAN: &str = "function is_nan(x) = x != x;";

const IS_FINITE: &str = "function is_finite(x) = is_num(x) && !is_nan(0 * x);";

const LAST: &str = "function last(list) = list[len(list) - 1];";

const IS_VECTOR: &str = "function is_vector(v) = is_list(v) && is_num(v[0]);";

const IS_RANGE: &str = "function is_range(x) = !is_list(x) && is_finite(x[0]) && is_finite(x[1]);";

const SELECT: &str = "function select(list, i) = is_vector(list) && is_range(i) ? list[i] : is_finite(i) ? list[i] : undef;";

const POINT3D: &str = "function point3d(p, fill=0) = assert(is_list(p)) [for (i=[0:2]) (p[i]==undef)? fill : p[i]];";

const NEAR0: &str = "function _fab_poc_near0(x) = abs(x) < _EPSILON;";

const IS_UP: &str = "function _fab_poc_isup(v) = v == UP;";

fn fp_of(src: &str) -> u64 {
    match &parse(src).stmts[0].kind {
        StmtKind::FunctionDef { fp, .. } => *fp,
        _ => panic!("no function in {src}"),
    }
}

fn entry(n: &str, src: &str, deps: &[&str], builtins: &[&str]) -> Entry {
    Entry {
        name: name(n),
        fp: fp_of(src),
        deps: names(deps),
        builtins: names(builtins),
        consts: Vec::new(),
        consts_v: Vec::new(),
    }
}

fn up() -> Value {
    Value::num_list([0.0, 0.0, 1.0_f64].map(f64::to_bits).to_vec())
}

fn registry() -> Registry {
    let mut near0 = entry("_fab_poc_near0", NEAR0, &[], &["abs"]);
    near0.consts.push((name("_EPSILON"), 1e-9_f64.to_bits()));
    let mut is_up = entry("_fab_poc_isup", IS_UP, &[], &[]);
    is_up.consts_v.push((name("UP"), up()));
    Registry {
        entries: vec![
            entry("is_nan", IS_NAN, &[], &[]),
            entry("is_finite", IS_FINITE, &["is_nan"], &["is_num"]),
            entry("last", LAST, &[], &["len"]),
            entry("select", SELECT, &["is_vector", "is_range", "is_finite", "is_nan"], &["is_list", "is_num"]),
            entry("point3d", POINT3D, &[], &["is_list"]),
            near0,
            is_up,
        ],
        pins: vec![(name("is_vector"), fp_of(IS_VECTOR)), (name("is_range"), fp_of(IS_RANGE))],
    }
}

fn references() -> Vec<(&'static str, &'static str)> {
    vec![
        ("is_nan", IS_NAN),
        ("is_finite", IS_FINITE),
        ("last", LAST),
        ("select", SELECT),
        ("point3d", POINT3D),
        ("_fab_poc_near0", NEAR0),
        ("_fab_poc_isup", IS_UP),
        ("is_vector", IS_VECTOR),
        ("is_range", IS_RANGE),
    ]
}

fn wires(src: &str, n: &str) -> bool {
    let prog = parse(src);
    let (ctx, _) = build_ctx(&prog, names(&BUILTINS), &registry(), plain());
    ctx.natives.iter().any(|x| x.as_str() == n)
}

/// The functions that are armed once a name has a value at the top level of the file.
fn armed(src: &str, bound: Option<(&str, Value)>) -> Vec<String> {
    let prog = parse(src);
    let stmts = stmt_refs(&prog);
    let functions = function_defs(&stmts);
    let mut store = Store::new();
    let mut global = Scope::new(&mut store);
    if let Some((n, v)) = bound {
        global.bind(&mut store, name(n), v);
    }
    let found = arm_guarded_intrinsics(&registry(), &functions, &store, &vec![global]);
    found.iter().map(|n| n.to_string()).collect()
}

fn audit(lib: &str) -> Result<Vec<(String, IntrinsicMatrixStatus)>, Error> {
    let prog = parse(lib);
    let missing: Vec<(Name, Name)> = prog
        .stmts
        .iter()
        .filter_map(|s| match &s.kind {
            StmtKind::Include(raw) => Some((name("."), raw.clone())),
            _ => None,
        })
        .collect();
    let graph = if missing.is_empty() {
        Graph::Complete { stmts: stmt_refs(&prog), islands: World::new(&prog, false).islands }
    } else {
        Graph::Incomplete(missing)
    };
    let rows = require_matrix(resolve_intrinsic_matrix(&graph, &registry()))?;
    Ok(rows.into_iter().map(|r| (r.name, r.status)).collect())
}

#[test]
fn tagged_functions_of_no_islands_is_empty() {
    assert!(tagged_functions(&Vec::new()).is_empty());
}

#[test]
fn dep_drift_and_builtin_shadow_veto_wiring() {
    assert!(wires(&format!("{IS_NAN}\n{IS_FINITE}"), "is_finite"), "exact dep wires");
    assert!(
        !wires(&format!("function is_nan(x) = false;\n{IS_FINITE}"), "is_finite"),
        "a drifted dep must veto"
    );
    assert!(!wires(IS_FINITE, "is_finite"), "an absent dep must veto");
    assert!(wires(LAST, "last"), "no shadow wires");
    assert!(!wires(&format!("function len(x) = 99;\n{LAST}"), "last"), "a user function shadowing len must veto");
}

#[test]
fn select_wires_only_with_its_pinned_deps_verbatim() {
    let full = format!("{SELECT}\n{IS_VECTOR}\n{IS_RANGE}\n{IS_FINITE}\n{IS_NAN}");
    assert!(wires(&full, "select"), "all deps verbatim");
    let sans_vector = format!("{SELECT}\n{IS_RANGE}\n{IS_FINITE}\n{IS_NAN}");
    assert!(!wires(&sans_vector, "select"), "missing is_vector");
    assert!(wires(&sans_vector, "is_finite"), "the other entries keep wiring independently");
}

#[test]
fn arm_guarded_intrinsics_checks_bound_const_bits() {
    let src = "_EPSILON = 1e-9; function _fab_poc_near0(x) = abs(x) < _EPSILON;";
    assert!(armed(src, None).is_empty());
    assert_eq!(armed(src, Some(("_EPSILON", num(1e-9)))), ["_fab_poc_near0"], "exact const arms");
    assert!(armed(src, Some(("_EPSILON", num(1e-6)))).is_empty(), "overridden const declines");
    let drifted = Value::Num(1e-9_f64.to_bits() + 1);
    assert!(armed(src, Some(("_EPSILON", drifted))).is_empty(), "one-ulp drift declines");
}

#[test]
fn intrinsic_named_arg_rebind_matches_push_call_semantics() {
    let interp = "function point3d(p, fill=0) = assert(is_list(p)) [for (i=[0:2]) (p[i]==undef)? fill : p[i+0]];";
    let reg = registry();
    assert_eq!(run_echo(&format!("{POINT3D}\necho(point3d(fill=7, p=[1]));"), &reg), "ECHO: [1, 7, 7]");
    assert_eq!(run_echo(&format!("{POINT3D}\necho(point3d(p=[1]));"), &reg), "ECHO: [1, 0, 0]");
    assert_eq!(run_echo(&format!("{POINT3D}\necho(point3d([9,9,9], p=[1]));"), &reg), "ECHO: [1, 0, 0]");
    assert_eq!(run_echo(&format!("{POINT3D}\necho(point3d([1], $junk=2));"), &reg), "ECHO: [1, 0, 0]");
    let cases = [
        "x = point3d([1,2,3], junk=rands(0,1,1)); echo(rands(0,1,1));",
        "x = point3d([1,2,3], 0, rands(0,1,1)); echo(rands(0,1,1));",
        "x = point3d(rands(0,1,1), p=[1]); echo(rands(0,1,1));",
        "x = point3d(fill=rands(0,1,1)[0], p=[1,undef,3]); echo(rands(0,1,1));",
    ];
    for body in cases {
        assert_eq!(
            run_echo(&format!("{POINT3D}\n{body}"), &reg),
            run_echo(&format!("{interp}\n{body}"), &reg),
            "intrinsic vs interpreted rand-stream diverged on: {body}"
        );
    }
}

#[test]
fn value_const_guard_arms_on_exact_bits_and_variant() {
    let src = "UP=[0,0,1]; function _fab_poc_isup(v) = v == UP;";
    let isup = |v: Option<Value>| armed(src, v.map(|v| ("UP", v))).iter().any(|n| n == "_fab_poc_isup");
    assert!(!isup(None), "unbound const declines");
    assert!(isup(Some(up())), "exact NumList arms");
    let over = Value::num_list([0.0, 1.0, 0.0_f64].map(f64::to_bits).to_vec());
    assert!(!isup(Some(over)), "overridden vector declines");
    let drift = Value::num_list(vec![0, 0, 1.0_f64.to_bits() + 1]);
    assert!(!isup(Some(drift)), "one-ulp drift declines");
    assert!(!isup(Some(Value::list(vec![num(0.0), num(0.0), num(1.0)]))), "an equal list declines");
}

#[test]
fn value_const_override_declines_end_to_end() {
    let poc = "function _fab_poc_isup(v) = v == UP;\necho(_fab_poc_isup([0,0,1]), _fab_poc_isup([0,1,0]));";
    assert_eq!(run_echo(&format!("UP=[0,0,1];\n{poc}"), &registry()), "ECHO: true, false");
    assert_eq!(run_echo(&format!("UP=[0,1,0];\n{poc}"), &registry()), "ECHO: false, true");
}

#[test]
fn const_override_declines_the_guarded_intrinsic_end_to_end() {
    let poc = "function _fab_poc_near0(x) = abs(x) < _EPSILON;\n\
               echo(_fab_poc_near0(0.0000000005), _fab_poc_near0(0.0000005));";
    assert_eq!(run_echo(&format!("_EPSILON = 1e-9;\n{poc}"), &registry()), "ECHO: true, false");
    assert_eq!(run_echo(&format!("_EPSILON = 1e-6;\n{poc}"), &registry()), "ECHO: true, true");
}

#[test]
fn intrinsic_matrix_all_matched_on_reference_library() {
    let lib: String = references().iter().map(|(_, src)| format!("{src}\n")).collect();
    let rows = audit(&lib).expect("audits");
    assert!(!rows.is_empty(), "registry can't be empty");
    for (n, status) in &rows {
        assert_eq!(*status, IntrinsicMatrixStatus::Matched, "{n} should match its own reference");
    }
}

#[test]
fn intrinsic_matrix_flags_changed_and_missing() {
    let refs = references();
    let (dropped, _) = refs[0];
    let (revised, _) = refs[1];
    let mut lib: String = refs.iter().skip(1).map(|(_, src)| format!("{src}\n")).collect();
    lib.push_str(&format!("function {revised}() = \"sustainment-drift\";"));
    let rows = audit(&lib).expect("audits");
    let status = |n: &str| rows.iter().find(|r| r.0 == n).expect("row exists").1;
    assert_eq!(status(dropped), IntrinsicMatrixStatus::Missing);
    assert_eq!(status(revised), IntrinsicMatrixStatus::Changed);
    let off: Vec<_> = rows
        .iter()
        .filter(|r| r.1 != IntrinsicMatrixStatus::Matched && r.0 != dropped && r.0 != revised)
        .collect();
    assert!(off.is_empty(), "collateral drift: {off:?}");
}

#[test]
fn intrinsic_matrix_loud_on_missing_library() {
    let err = audit("include <no-such-dir/std.scad>\n").expect_err("must refuse a broken tree");
    let err = message(&err);
    assert!(err.contains("complete library tree"), "unexpected error: {err}");
}

#[test]
fn resolve_source_surfaces_needs_then_closes() {
    let none = no_registry();
    let scad = resolve("use <lib.scad>\ncube(1);", &none, None).expect("resolves");
    match &scad {
        Resolution::Incomplete { needs } => {
            assert_eq!(needs.len(), 1);
            assert!(matches!(&needs[0], SourceNeed::Scad { from_dir, raw }
                if from_dir.as_str() == "." && raw.as_str() == "lib.scad"));
        }
        other => panic!("expected a Scad need, got {other:?}"),
    }
    let empty = || Some(Vec::new());
    let wanted = resolve("import(\"a.stl\"); import(\"b.stl\"); import(\"a.stl\");", &none, empty()).expect("resolves");
    match &wanted {
        Resolution::Incomplete { needs } => {
            let raws: Vec<&str> = needs
                .iter()
                .map(|n| match n {
                    SourceNeed::File { raw } => raw.as_str(),
                    other => panic!("expected a File need, got {other:?}"),
                })
                .collect();
            assert_eq!(raws, ["a.stl", "b.stl"]);
        }
        other => panic!("expected two File needs in one round, got {other:?}"),
    }
    let have = Some(vec![(name("a.stl"), Imported::Mesh(Mesh::new()))]);
    let closed = resolve("import(\"a.stl\");", &none, have).expect("resolves");
    assert!(matches!(&closed, Resolution::Complete { .. }), "expected Complete, got {closed:?}");
}

#[test]
fn budget_none_is_unlimited() {
    let v = eval_budgeted("x = len([for (i = [0:200000]) i * 2]);", None).expect("no budget");
    assert!(v.eq(&num(200_001.0), &fpu));
}

#[test]
fn budget_stops_the_range_comprehension_trophy() {
    match eval_budgeted("x = [for (i = [0:2e9]) i];", Some(1_000)).unwrap_err() {
        Error::Eval(m) => assert!(m.contains("budget exceeded"), "got {m}"),
        other => panic!("expected Error::Eval, got {other:?}"),
    }
}

#[test]
fn budget_stops_nested_comprehension() {
    let err = eval_budgeted("x = [for (i = [0:1000000]) for (j = [0:1000000]) 0];", Some(3_000_000)).unwrap_err();
    assert!(matches!(err, Error::Eval(_)), "got {err:?}");
}

#[test]
fn budget_stops_each_splice() {
    let err = eval_budgeted("x = [each [0:2e9]];", Some(1_000)).unwrap_err();
    assert!(matches!(err, Error::Eval(_)), "got {err:?}");
}

#[test]
fn budget_within_bound_matches_unbounded() {
    let src = "x = 2 + 3 * 4 - 1;";
    let bounded = eval_budgeted(src, Some(10_000)).expect("within budget");
    let unbounded = eval_budgeted(src, None).expect("unbounded");
    assert!(bounded.eq(&unbounded, &fpu));
    assert!(bounded.eq(&num(13.0), &fpu));
}

#[test]
fn budget_failure_is_reproducible() {
    let src = "x = [for (i = [0:1000000]) for (j = [0:1000000]) 0];";
    let a = eval_budgeted(src, Some(2_500_000)).unwrap_err();
    let b = eval_budgeted(src, Some(2_500_000)).unwrap_err();
    assert_eq!(message(&a), message(&b));
}

#[test]
fn metered_cost_is_monotone_deterministic_and_bounded() {
    let cost = |src: &str, budget: u64| {
        let prog = parse(src);
        let world = World::new(&prog, false);
        let drive = |c, g| world.drive(c, g);
        evaluate_geometry_metered(&prog, budget, names(&BUILTINS), &no_registry(), &drive, &fpu, &host, FUEL).1
    };
    let small = cost("x = len([for (i = [0:100]) i]);", 50_000_000);
    let big = cost("x = len([for (i = [0:10000]) i]);", 50_000_000);
    assert!(big > small, "bigger comprehension must cost more: {big} vs {small}");
    assert_eq!(big, cost("x = len([for (i = [0:10000]) i]);", 50_000_000));
    assert!(big <= 50_000_000);
    assert_eq!(small, cost("x = len([for (i = [0:100]) i]);", small));
    let capped = cost("x = [for (i = [0:2e9]) i];", 10_000);
    assert!(capped >= 10_000 && capped > big, "budget-hit caps high (worst-case rank): {capped}");
}

#[test]
fn positional_named_and_default_args() {
    gives("function f(x) = x + 1; y = f(2);", num(3.0));
    gives("function f(x, y = 10) = x + y; a = f(5);", num(15.0));
    gives("function f(x, y = 10) = x + y; a = f(5, 20);", num(25.0));
    gives("function f(a, b) = a - b; y = f(b = 1, a = 10);", num(9.0));
    gives("function f(x, y) = y; a = f(1);", Value::Undef);
    gives("function f(x) = x; y = f(1, 2, 3);", num(1.0));
    gives("function f(x) = x; y = f(x = 1, z = 9);", num(1.0));
}

#[test]
fn numeric_jit_dispatches_eligible_calls_and_falls_back_otherwise() {
    let jit = |src: &str| eval_with(src, Config { jit: true, ..plain() }).expect("evaluates");
    assert!(jit("function sq(x) = x*x; y = sq(5);").eq(&num(1025.0), &fpu), "an eligible numeric call takes the JIT path");
    assert!(jit("function sq(x) = x*x; y = sq([1,2]);").eq(&num(5.0), &fpu), "a vector arg falls back");
    assert!(jit("function sq(x) = x*x; y = sq(x = 5);").eq(&num(1025.0), &fpu), "a named-arg call takes the JIT path");
    assert!(jit("function sq(x) = x*x; y = sq(5, $fn = 16);").eq(&num(25.0), &fpu), "a dollar-arg call falls back");
    assert!(jit("function cube(x) = x*x*x; y = cube(3);").eq(&num(27.0), &fpu), "a registry miss falls back");
    gives("function sq(x) = x*x; y = sq(5);", num(25.0));
}

#[test]
fn functions_are_lexically_scoped() {
    gives("g = 7; function f() = g; y = f();", num(7.0));
    gives("function inner() = x; function outer(x) = inner(); y = outer(99);", Value::Undef);
}

#[test]
fn recursion_and_mutual_recursion() {
    gives("function fac(n) = n <= 1 ? 1 : n * fac(n - 1); y = fac(5);", num(120.0));
    let mutual = "function even(n) = n == 0 ? true : odd(n - 1); \
                  function odd(n) = n == 0 ? false : even(n - 1); \
                  y = even(10);";
    gives(mutual, Value::Bool(true));
}

#[test]
fn closures_capture_their_env_and_are_higher_order() {
    gives("k = 100; g = function(x) x + k; y = g(1);", num(101.0));
    gives("g = function(x) x * 2; y = g(21);", num(42.0));
    gives("function apply(f, x) = f(x); double = function(n) n * 2; y = apply(double, 7);", num(14.0));
    gives("g = 5; y = g(1);", Value::Undef);
}

#[test]
fn dollar_vars_are_dynamically_scoped() {
    gives("function f() = $fn; y = f($fn = 8);", num(8.0));
    gives("function f() = $fn; y = f();", num(0.0));
    gives("function inner() = $fn; function outer() = inner(); y = outer($fn = 8);", num(8.0));
    gives("function inner() = $fn; function outer() = inner($fn = 3); y = outer($fn = 8);", num(3.0));
}

#[test]
fn viewport_specials_are_seeded() {
    gives("x = $vpr[2];", num(25.0));
    gives("x = $vpr[0];", num(55.0));
    gives("x = $vpt;", Value::num_list(vec![0, 0, 0]));
    gives("x = $vpd;", num(140.0));
    gives("x = $vpf;", num(22.5));
    gives("function f() = $vpd; y = f($vpd = 500);", num(500.0));
}

#[test]
fn deep_non_tail_recursion_is_heap_bounded() {
    gives("function sum(n) = n <= 0 ? 0 : n + sum(n - 1); y = sum(100000);", num(5_000_050_000.0));
}

#[test]
fn hoisted_assignments_dedup_first_occurrence_last_expr() {
    let prog = parse("a = 1; b = 2; a = 3;");
    let stmts = stmt_refs(&prog);
    let order = hoisted_assignments(&stmts);
    assert_eq!(order.iter().map(|(n, _)| n.as_str()).collect::<Vec<_>>(), ["a", "b"]);
    assert!(matches!(order[0].1.kind, ExprKind::Num(n) if n == 3.0_f64.to_bits()));
}

#[test]
fn mod_key_home_identity_is_live_frame_not_address() {
    let mut store = Store::new();
    let a = Scope::new(&mut store);
    let a_clone = a;
    let b = Scope::new(&mut store);
    let k_a = ModKey::new(0, &a, &Vec::new());
    let k_a2 = ModKey::new(0, &a_clone, &Vec::new());
    let k_b = ModKey::new(0, &b, &Vec::new());
    assert!(k_a.same(&k_a2), "a shared frame is one identity");
    assert!(!k_a.same(&k_b), "distinct frames stay distinct keys even when structurally identical");
    drop(store);
    assert!(k_a.same(&k_a2) && !k_a.same(&k_b));
}

#[test]
fn cache_on_equals_cache_off() {
    let programs = [
        "module leaf(r){ sphere(r,$fn=8); } union(){ for(i=[0:4]) translate([i*3,0,0]) leaf(2); }",
        "module leaf(r){ sphere(r); } union(){ leaf(2,$fn=8); leaf(2,$fn=16); leaf(2,$fn=8); }",
        "module o(){ i(); } module i(){ cube(1); } union(){ o(); translate([2,0,0]) o(); }",
        "module rec(n){ if(n>0){ cube(1); translate([2,0,0]) rec(n-1); } } rec(4);",
        "module leaf(r){ sphere(r,$fn=8); } difference(){ leaf(3); leaf(2); leaf(2); }",
        "module leaf(r){ cube(r,center=true); } intersection(){ leaf(3); leaf(2); }",
        "module r(){ sphere(rands(1,2,1)[0],$fn=8); } union(){ r(); r(); r(); }",
        "module w(){ children(); } union(){ w(){ cube(1); } w(){ sphere(1,$fn=8); } }",
        "module e(){ echo(\"x\"); cube(1); } union(){ e(); translate([2,0,0]) e(); }",
        "module leaf(){ sphere(1,$fn=8); } union(){ for(i=[0:4]) { $idx=i; translate([i*3,0,0]) leaf(); } }",
        "module rleaf(){ sphere($idx+1,$fn=8); } union(){ for(i=[0:3]) { $idx=i; translate([i*9,0,0]) rleaf(); } }",
        "module m(){ if(is_undef($q)) cube(1); else sphere(1,$fn=8); } union(){ m(); translate([3,0,0]) { $q=5; m(); } }",
        "module leaf(){ r = 1; sphere(r); } union(){ leaf($fn=8); translate([9,0,0]) leaf($fn=64); }",
        "module leaf(){ for(i=[0:0]) sphere(1); } union(){ leaf($fn=8); translate([9,0,0]) leaf($fn=64); }",
        "module leaf(){ sphere(1, $fa=12); } union(){ leaf($fn=8); translate([9,0,0]) leaf($fn=64); }",
        "module leaf(){ function f() = 1; sphere(f()); } union(){ leaf($fn=8); translate([9,0,0]) leaf($fn=64); }",
        "module leaf(){ if(true){ r = 2; sphere(r); } } union(){ leaf($fn=8); translate([9,0,0]) leaf($fn=64); }",
        "module leaf(){ r = 1; sphere(r); } union(){ { $fn=8; leaf(); } translate([9,0,0]) { $fn=64; leaf(); } }",
        "module leaf(){ for(i=[0:0]) sphere(4); } union(){ { $fa=3; $fs=0.3; leaf(); } translate([19,0,0]) { $fa=30; $fs=3; leaf(); } }",
    ];
    for src in programs {
        assert_eq!(shape(src, false), shape(src, true), "cache changed geometry:\n{src}");
    }
}

#[test]
fn different_children_never_collide() {
    let both = run("module w(){ children(); } union(){ w(){ cube(1); } w(){ sphere(1,$fn=8); } }", true).0;
    match &both {
        Geo::D3(GeoNode::Union(kids)) => {
            assert_eq!(kids.len(), 2, "both wraps must render");
            assert_ne!(format!("{:?}", kids[0]), format!("{:?}", kids[1]), "a cube and a sphere");
        }
        other => panic!("expected a top-level union of the two wrapped children, got {other:?}"),
    }
}

#[test]
fn echoing_module_emits_every_call() {
    let src = "module e(){ echo(\"ping\"); } union(){ e(); e(); e(); }";
    let echoes = |on: bool| {
        run(src, on).1.iter().filter(|m| matches!(m, Message::Echo(s) if s.contains("ping"))).count()
    };
    assert_eq!(echoes(false), echoes(true), "cache changed the echo count");
    assert_eq!(echoes(true), 3, "each of the 3 calls must echo");
}

#[test]
fn distributor_minted_specials_still_hit() {
    let src = "module leaf(){ sphere(1,$fn=8); } union(){ for(i=[0:49]) { $idx=i; translate([i*3,0,0]) leaf(); } }";
    let c = run(src, true).2;
    assert_eq!(c.hits, 49, "49 of 50 copies must hit");
    assert_eq!(c.misses, 1, "only the first copy evaluates");
}

#[test]
fn reading_the_minted_special_misses_per_copy() {
    let src = "module rleaf(){ sphere($idx+1,$fn=8); } union(){ for(i=[0:3]) { $idx=i; translate([i*9,0,0]) rleaf(); } }";
    let c = run(src, true).2;
    assert_eq!(c.hits, 0, "every copy reads a different $idx");
    assert_eq!(c.misses, 4);
}

#[test]
fn interleaved_contexts_hit_their_own_entries() {
    let src = "module leaf(r){ sphere(r); } union(){ leaf(2,$fn=8); leaf(2,$fn=16); leaf(2,$fn=8); leaf(2,$fn=16); }";
    let c = run(src, true).2;
    assert_eq!(c.misses, 2, "one evaluation per distinct $fn");
    assert_eq!(c.hits, 2, "each rerun hits its own entry");
}

#[test]
fn impure_bodies_are_counted_by_reason() {
    let src = "module e(){ echo(\"x\"); cube(1); } module r(){ sphere(rands(1,2,1)[0]); } union(){ e(); r(); }";
    let c = run(src, true).2;
    assert_eq!((c.stores, c.declined_msg, c.declined_draws, c.declined_impure), (0, 1, 1, 0));
}

/// The warnings that a program of one file earns.
fn warnings(src: &str) -> Vec<String> {
    let prog = parse(src);
    let scope: Vec<(&Stmt, usize)> = prog.stmts.iter().map(|s| (s, 0)).collect();
    let files = vec![FileInfo { source: src.as_bytes().to_vec(), path: None }];
    overwritten_assignments(vec![scope], &files).iter().map(Message::render).collect()
}

#[test]
fn a_repeat_names_the_first_assignments_line() {
    assert_eq!(
        warnings("a = 1;\nb = 2;\na = 3;\n"),
        ["WARNING: \"a\" was assigned on line 1 but was overwritten"]
    );
}

#[test]
fn three_assignments_warn_twice_both_citing_the_first() {
    assert_eq!(
        warnings("a = 1;\na = 2;\na = 3;\n"),
        [
            "WARNING: \"a\" was assigned on line 1 but was overwritten",
            "WARNING: \"a\" was assigned on line 1 but was overwritten",
        ]
    );
}

#[test]
fn an_uncalled_module_body_still_warns() {
    assert_eq!(
        warnings("module m() { a = 1; a = 3; }\n"),
        ["WARNING: \"a\" was assigned on line 1 but was overwritten"]
    );
}

#[test]
fn emission_order_follows_the_overwriting_site_across_scopes() {
    assert_eq!(
        warnings("a = 1;\nmodule m() { b = 1; b = 2; }\na = 2;\n"),
        [
            "WARNING: \"b\" was assigned on line 2 but was overwritten",
            "WARNING: \"a\" was assigned on line 1 but was overwritten",
        ]
    );
}

#[test]
fn nested_scopes_do_not_collide_but_a_bare_block_folds_in() {
    assert!(warnings("a = 1;\nif (true) { a = 2; }\n").is_empty());
    assert!(warnings("a = 1;\nmodule m() { a = 2; }\n").is_empty());
    assert!(warnings("a = 1;\ntranslate([0, 0, 0]) { a = 2; }\n").is_empty());
    assert_eq!(
        warnings("a = 1;\n{ a = 2; }\n"),
        ["WARNING: \"a\" was assigned on line 1 but was overwritten"]
    );
}

#[test]
fn each_nested_scope_is_scanned_on_its_own() {
    assert_eq!(
        warnings("if (true) { a = 1; a = 2; }\n"),
        ["WARNING: \"a\" was assigned on line 1 but was overwritten"]
    );
    assert_eq!(
        warnings("translate([0, 0, 0]) { a = 1; a = 2; }\n"),
        ["WARNING: \"a\" was assigned on line 1 but was overwritten"]
    );
}

#[test]
fn reassignments_across_files() {
    let main = "a = 1;\nb = 1;\n";
    let lib = "\na = 2;\nc = 1;\nc = 2;\n";
    let (mp, lp) = (parse(main), parse(lib));
    let files = vec![
        FileInfo { source: main.as_bytes().to_vec(), path: Some("main.scad".to_string()) },
        FileInfo { source: lib.as_bytes().to_vec(), path: Some("lib.scad".to_string()) },
    ];
    let told = |scope: Vec<(&Stmt, usize)>| -> Vec<String> {
        overwritten_assignments(vec![scope], &files).iter().map(Message::render).collect()
    };
    let after: Vec<(&Stmt, usize)> =
        mp.stmts.iter().map(|s| (s, 0)).chain(lp.stmts.iter().map(|s| (s, 1))).collect();
    assert_eq!(
        told(after),
        [
            "WARNING: \"a\" was assigned on line 1 of \"main.scad\" but was overwritten",
            "WARNING: \"c\" was assigned on line 3 of \"lib.scad\" but was overwritten",
        ]
    );
    let before: Vec<(&Stmt, usize)> =
        lp.stmts.iter().map(|s| (s, 1)).chain(mp.stmts.iter().map(|s| (s, 0))).collect();
    assert_eq!(told(before), ["WARNING: \"c\" was assigned on line 3 of \"lib.scad\" but was overwritten"]);
    let twice: Vec<(&Stmt, usize)> = lp.stmts[..1].iter().chain(lp.stmts[..1].iter()).map(|s| (s, 1)).collect();
    assert!(told(twice).is_empty(), "a file that is spliced in twice says nothing");
}

fn listed(s: &NameSet) -> Vec<String> {
    (0..s.len()).map(|i| s.get(i).to_string()).collect()
}

fn analyze(src: &str) -> Analysis {
    analyze_function(&parse(src), &names(&BUILTINS)).expect("analyzes")
}

#[test]
fn scope_rules_classify_reads_and_calls() {
    let a = analyze("function t(a, b=_EPS) = let(c = a + PI) is_num(c) ? helper(b) : $fn + d;");
    assert_eq!(a.name.as_str(), "t");
    assert_eq!(a.params.iter().map(|p| p.as_str()).collect::<Vec<_>>(), ["a", "b"]);
    assert_eq!(listed(&a.consts), ["PI", "_EPS", "d"]);
    assert_eq!(listed(&a.deps), ["helper"]);
    assert_eq!(listed(&a.builtins), ["is_num"]);
}

#[test]
fn a_shadowed_call_name_is_still_a_dep() {
    let a = analyze("function t(f) = f(1);");
    assert_eq!(listed(&a.deps), ["f"]);
}

#[test]
fn a_c_style_update_binding_is_not_a_free_read() {
    let a = analyze("function t(n) = [for (i = 0; i < n; nxt = i * 2, i = nxt + 1) if (i > 2) i];");
    assert!(listed(&a.consts).is_empty(), "the update clause binds: {:?}", listed(&a.consts));
}

#[test]
fn binders_do_not_leak() {
    let a = analyze("function t(n) = [for (i = [0:n]) (function(j) j + i)(i)] * [for (i = [0:n]) i] + i;");
    assert_eq!(listed(&a.consts), ["i"]);
}

#[test]
fn derived_guards_contain_every_hand_list() {
    let sources: Vec<(Name, Program)> = references().iter().map(|(n, src)| (name(n), parse(src))).collect();
    for e in &registry().entries {
        let (_, src) = references().into_iter().find(|(n, _)| *n == e.name.as_str()).unwrap();
        let derived = analyze_closed(&parse(src), &sources, &names(&BUILTINS)).expect("analyzes");
        for d in &e.deps {
            assert!(derived.deps.contains(d), "{}: dep {d} is not derived", e.name);
        }
        for b in &e.builtins {
            assert!(derived.builtins.contains(b), "{}: builtin {b} is not derived", e.name);
        }
        for c in e.consts.iter().map(|c| &c.0).chain(e.consts_v.iter().map(|c| &c.0)) {
            assert!(derived.consts.contains(c), "{}: const {c} is not derived", e.name);
        }
        assert_eq!(derived.deps.len(), e.deps.len(), "{}: more deps are derived", e.name);
        assert_eq!(derived.builtins.len(), e.builtins.len(), "{}: more builtins are derived", e.name);
        assert_eq!(derived.consts.len(), e.consts.len() + e.consts_v.len(), "{}: more consts are derived", e.name);
    }
}

fn printed(b: u64) -> String {
    format!("{:?}", f64::from_bits(b))
}

fn shown(e: &Expr) -> String {
    format!("{:?}", e.kind)
}

#[test]
fn generated_code_names_only_the_rt_abi() {
    let sources: Vec<Source> = [("is_nan", IS_NAN), ("is_finite", IS_FINITE), ("last", LAST), ("_fab_poc_isup", IS_UP)]
        .iter()
        .map(|(n, src)| Source {
            name: name(n),
            reference: src.to_string(),
            prog: parse(src),
            consts: if *n == "_fab_poc_isup" { vec![(name("UP"), up())] } else { Vec::new() },
        })
        .collect();
    let batch = names(&["is_nan", "is_finite", "last", "_fab_poc_isup"]);
    let text = generate_module(&sources, &batch, &names(&BUILTINS), &printed, &shown).expect("the batch generates");
    let code = text.rsplit_once("\"#;").map_or(text.as_str(), |(_, tail)| tail);
    for forbidden in ["crate::eval", "crate::parser", "super::", "crate::Result"] {
        assert!(!code.contains(forbidden), "generated code reaches {forbidden}");
    }
    assert!(
        code.contains("rt::apply_binary") && code.contains("rt::builtin"),
        "the scan found no rt calls at all, so it would pass on an empty file"
    );
    for line in code.lines().filter(|l| !l.starts_with("//")) {
        assert!(!line.contains("ops::"), "a path outside the runtime: {line}");
    }
}

fn refused(src: &str) -> String {
    generate_native(&parse(src), &Vec::new(), &Vec::new(), &names(&BUILTINS), &shown).expect_err("declines")
}

#[test]
fn a_form_that_has_no_text_is_shown_in_so_many_characters() {
    let src = "function t(a) = function(x) x + a;";
    let prog = parse(src);
    let body = match &prog.stmts[0].kind {
        StmtKind::FunctionDef { body, .. } => body,
        other => panic!("{other:?}"),
    };
    let all = format!("construct outside the v0 subset: {:?}", body.kind);
    assert!(all.chars().count() > 120);
    let cut: String = all.chars().take(120).collect();
    assert_eq!(refused(src), format!("t: {cut}"));
    let short = |src: &str| {
        generate_native(&parse(src), &Vec::new(), &Vec::new(), &names(&BUILTINS), &|_: &Expr| "it".to_string())
    };
    assert_eq!(short(src).unwrap_err(), "t: construct outside the v0 subset: it");
    assert_eq!(short("function t(a) = echo(a) a;").unwrap_err(), "t: construct outside the v0 subset: it");
}

#[test]
fn a_param_referencing_default_declines() {
    let err = refused("function t(a, b=a) = b;");
    assert!(err.contains("free read `a`"), "{err}");
}

#[test]
fn a_duplicate_parameter_declines() {
    let err = refused("function t(a, a=9) = a;");
    assert!(err.contains("duplicate parameter `a`"), "{err}");
}

#[test]
fn a_non_finite_numlist_const_declines() {
    let consts = vec![(name("C"), Value::num_list([1.0, f64::INFINITY].map(f64::to_bits).to_vec()))];
    let mut table = Vec::new();
    let err = bake_entry(&name("t"), &consts, &mut table, &printed).expect_err("declines");
    assert!(err.contains("non-finite element"), "{err}");
}

#[test]
fn trace_hooks_and_emit_paths() {
    let t = Tracer { on: true };
    assert_eq!(t.bind('=', "x", "1").unwrap(), "+ [=] x = 1");
    assert_eq!(t.ret("f", "undef").unwrap(), "+ [call] f => undef");
    assert_eq!(t.module(1, "cuboid").unwrap(), "+ [mod]   cuboid()");
    let args = vec!["1".to_string(), "2".to_string()];
    assert_eq!(t.builtin("max", &args, "2").unwrap(), "+ [call] max(1, 2) => 2");
    assert_eq!(t.unbound_special("$unset").unwrap(), "+ [unbound $] $unset");
    assert_eq!(t.check(true, "a").unwrap(), "+ [assert ok] a");
    assert_eq!(t.check(false, "a").unwrap(), "+ [assert FAIL] a");
    gives("function f(x) = x + 1; y = f(2);", num(3.0));
    gives("y = max(1, 2, 3);", num(3.0));
    gives("y = max(2, 3, extra = 1);", num(3.0));
    gives("y = assert(true) 5;", num(5.0));
    gives("y = $unset;", Value::Undef);
    let off = Tracer { on: false };
    assert!(off.bind('=', "x", "1").is_none() && off.module(1, "cuboid").is_none());
}

fn hash_words(seed: u64, words: &Vec<u64>) -> u64 {
    words.iter().fold(seed, |h, w| (h ^ w).wrapping_mul(0x100_0000_01b3).rotate_left(7))
}

#[test]
fn repeated_calls_are_counted_under_both_keys() {
    let mut r = Redundancy::new();
    let ctx = |n: f64| vec![(name("$idx"), num(n))];
    for i in 0..4 {
        r.record(7, &vec![num(1.0)], &ctx(f64::from(i)), &hash_words);
    }
    r.record(7, &vec![num(2.0)], &ctx(0.0), &hash_words);
    r.record(8, &vec![Value::num_list(vec![1, 2]), Value::Undef], &Vec::new(), &hash_words);
    let s = r.summary();
    assert_eq!((s.total, s.distinct_args, s.distinct_full), (6, 3, 6));
    assert_eq!((s.key_elems, s.top_ten), (5 + 4, 6));
    assert_ne!(call_id(3, 5), call_id(3, 6));
    assert_eq!(call_id(0, 5), 10);
}

#[test]
fn modules_are_ranked_by_what_a_memory_would_save() {
    let mut r = ModRedundancy::new();
    let mut due = Vec::new();
    let none: Vec<(Name, Value)> = Vec::new();
    for (id, n, x) in [(1, "a", 1.0), (2, "b", 1.0), (2, "b", 1.0), (3, "c", 1.0), (2, "b", 1.0), (3, "c", 1.0)] {
        due.push(r.record(id, &name(n), &vec![num(x)], &none, 2, &hash_words));
    }
    assert_eq!(due, [false, true, false, true, false, true]);
    let rows: Vec<(String, u64, usize)> =
        r.worst_modules().into_iter().map(|(n, t, d)| (n.to_string(), t, d)).collect();
    let want = [("b", 3, 1), ("c", 2, 1), ("a", 1, 1)];
    assert_eq!(rows, want.map(|(n, t, d)| (n.to_string(), t, d)));
    assert!(!r.record(1, &name("a"), &Vec::new(), &none, 0, &hash_words));
}

#[test]
fn values_are_told_apart_by_their_words() {
    let words = |v: &Value| {
        let mut out = Vec::new();
        let n = hash_value(v, &mut out);
        (out, n)
    };
    let pair = Value::list(vec![num(1.0), Value::string("a")]);
    assert_eq!(words(&pair), (vec![5, 2, 1.0_f64.to_bits(), 3, 97, 255], 3));
    assert_eq!(words(&Value::num_list(vec![9])), (vec![4, 9], 2));
    let mut o = ObjectMap::new();
    o.set(name("k"), Value::Bool(true));
    assert_eq!(words(&Value::Object(Rc::new(o))), (vec![8, 107, 255, 1, 1], 2));
}

#[test]
fn native_code_echoes_like_the_interpreter() {
    let prog = parse("x = 1;");
    let (mut ctx, _) = build_ctx(&prog, names(&BUILTINS), &no_registry(), plain());
    let shown = vec!["1".to_string(), "2".to_string()];
    ctx.echo(&vec![None, Some(name("b"))], &vec![num(1.0), num(2.0)], &shown).unwrap();
    assert_eq!(ctx.messages.iter().map(Message::render).collect::<Vec<_>>(), ["ECHO: 1, b = 2"]);
    let mut deep = Value::Undef;
    for _ in 0..10_001 {
        deep = Value::list(vec![deep]);
    }
    assert!(ctx.echo(&vec![None], &vec![deep.clone()], &vec!["[]".to_string()]).is_err());
    assert_eq!(ctx.messages.len(), 1);
    std::mem::forget(deep);
}

/// What the only assignment of a program gives, and what it puts on the console.
fn told(src: &str) -> (Result<Value, Error>, Vec<String>) {
    let prog = parse(src);
    let (mut ctx, scope) = build_ctx(&prog, names(&BUILTINS), &no_registry(), plain());
    let mut last = Ok(Value::Undef);
    for stmt in &prog.stmts {
        if let StmtKind::Assignment { value, .. } = &stmt.kind {
            ctx.globals[0] = scope;
            last = ctx.eval_with_ctx(value, scope, &fpu, &host, FUEL);
        }
    }
    (last, ctx.messages.iter().map(Message::render).collect())
}

fn nums(xs: &[f64]) -> Value {
    Value::num_list(xs.iter().map(|x| x.to_bits()).collect())
}

fn tells(src: &str, want: Value, lines: &[&str]) {
    let (got, said) = told(src);
    let got = got.expect("evaluates");
    assert!(got.eq(&want, &fpu), "{src}: {got:?}, not {want:?}");
    assert_eq!(said, lines, "{src}");
}

fn fails(src: &str, why: &str) {
    let (got, _) = told(src);
    assert_eq!(message(&got.expect_err(src)), why, "{src}");
}

#[test]
fn parts_are_evaluated_from_left_to_right() {
    tells("x = (echo(1) 5) - (echo(2) 3);", num(2.0), &["ECHO: 1", "ECHO: 2"]);
    tells("x = [echo(1) 7, echo(2) 8][echo(3) 1];", num(8.0), &["ECHO: 1", "ECHO: 2", "ECHO: 3"]);
    tells("x = max(echo(1) 4, echo(2) 6);", num(6.0), &["ECHO: 1", "ECHO: 2"]);
    tells("x = -(echo(1) 4);", num(-4.0), &["ECHO: 1"]);
}

#[test]
fn only_the_chosen_branch_is_evaluated() {
    tells("x = true ? echo(1) 5 : echo(2) 6;", num(5.0), &["ECHO: 1"]);
    tells("x = [] ? echo(1) 5 : echo(2) 6;", num(6.0), &["ECHO: 2"]);
    tells("x = (echo(1) 0) && (echo(2) 1);", Value::Bool(false), &["ECHO: 1"]);
    tells("x = (echo(1) 3) && (echo(2) 4);", Value::Bool(true), &["ECHO: 1", "ECHO: 2"]);
    tells("x = (echo(1) 3) || (echo(2) 4);", Value::Bool(true), &["ECHO: 1"]);
    tells("x = (echo(1) 0) || (echo(2) undef);", Value::Bool(false), &["ECHO: 1", "ECHO: 2"]);
}

#[test]
fn a_let_binds_in_turn() {
    tells("x = let (a = 2, b = a * 3) a + b;", num(8.0), &[]);
    tells(
        "x = let (a = 2, a = 3) a;",
        num(2.0),
        &["WARNING: Ignoring duplicate variable assignment \"a\""],
    );
    tells("x = nothing;", Value::Undef, &["WARNING: Ignoring unknown variable 'nothing'"]);
    tells("x = nothing(echo(1) 1);", Value::Undef, &["WARNING: Ignoring unknown function 'nothing'"]);
    tells("x = $nothing;", Value::Undef, &[]);
}

#[test]
fn generators_contribute_their_elements() {
    tells("x = [for (i = [1, 2]) for (j = [10, 20]) i + j];", nums(&[11.0, 21.0, 12.0, 22.0]), &[]);
    tells("x = [for (i = [1, 2], j = [10, 20]) i + j];", nums(&[11.0, 21.0, 12.0, 22.0]), &[]);
    tells("x = [0, if (true) 1, if (false) 2, if (false) 3 else 4];", nums(&[0.0, 1.0, 4.0]), &[]);
    tells("x = [each [1, 2], each [5:6], 9];", nums(&[1.0, 2.0, 5.0, 6.0, 9.0]), &[]);
    tells("x = [for (i = [1:3]) let (d = i * 2) if (d != 4) d];", nums(&[2.0, 6.0]), &[]);
    tells("x = [for (i = 0, s = 1; i < 4; i = i + 1, s = s * 2) s];", nums(&[1.0, 2.0, 4.0, 8.0]), &[]);
    tells("x = [for (i = [5:1:2]) i];", Value::list(Vec::new()), &[]);
}

#[test]
fn a_call_is_worth_its_body() {
    tells("function f(a, b = a + 1) = [a, b]; x = f(b = 7, a = 1);", nums(&[1.0, 7.0]), &[]);
    tells("x = (function (n) n * n)(6);", num(36.0), &[]);
    tells("x = let (sq = function (n) n * n) sq(5);", num(25.0), &[]);
    tells("x = (3)(4);", Value::Undef, &[]);
}

#[test]
fn a_failing_part_fails_the_whole() {
    fails("x = assert(false) 1;", "assertion failed [assert(false)]");
    fails("x = 1 + (assert(false, \"no\") 1);", "assertion failed: no [assert(false)]");
    fails("x = [for (i = [1:2]) assert(i < 2, i) i];", "assertion failed: 2 [assert(i < 2)]");
    tells("x = assert(true, echo(1) 2) 3;", num(3.0), &["ECHO: 1"]);
    fails("x = [for (i = 0; true; i = i + 1) if (false) i];", "For loop counter exceeded limit");
    fails(
        "function f(n) = 1 + f(n + 1); x = f(0);",
        "Recursion detected calling function 'f'",
    );
    let e = eval_budgeted("x = 1 + 2;", Some(1)).expect_err("spent");
    assert_eq!(
        message(&e),
        "eval budget exceeded: 2 steps > 1 (untrusted-input resource limit; raise FAB_EVAL_BUDGET or Config::eval_budget)"
    );
}

#[test]
fn an_evaluation_without_steps_is_unfinished() {
    let prog = parse("x = 1 + 2;");
    let (mut ctx, scope) = build_ctx(&prog, names(&BUILTINS), &no_registry(), plain());
    if let StmtKind::Assignment { value, .. } = &prog.stmts[0].kind {
        for fuel in 0..4 {
            assert!(matches!(ctx.eval_with_ctx(value, scope, &fpu, &host, fuel), Err(Error::Unfinished)));
        }
        for fuel in 5..9 {
            assert!(ctx.eval_with_ctx(value, scope, &fpu, &host, fuel).expect("ends").eq(&num(3.0), &fpu));
        }
    }
}

#[test]
fn an_answer_that_does_not_fit_is_refused() {
    let prog = parse("x = max(1, 2);");
    let (mut ctx, scope) = build_ctx(&prog, names(&BUILTINS), &no_registry(), plain());
    let odd = |_: &Task<'_>, _: u64, _: &Vec<Name>| Reply::Texts(Vec::new());
    if let StmtKind::Assignment { value, .. } = &prog.stmts[0].kind {
        let e = ctx.eval_with_ctx(value, scope, &fpu, &odd, FUEL).expect_err("does not fit");
        assert_eq!(message(&e), "the answer does not fit the request");
    }
}

#[test]
fn vectors_and_matrices_combine() {
    tells("x = [1, 2, 3] + [10, 20];", nums(&[11.0, 22.0]), &[]);
    tells("x = [1, 2] * [3, 4];", num(11.0), &[]);
    tells("x = [[1, 2], [3, 4]] * [1, 1];", nums(&[3.0, 7.0]), &[]);
    tells("x = [1, 1] * [[1, 2], [3, 4]];", nums(&[4.0, 6.0]), &[]);
    tells(
        "x = [[1, 2], [3, 4]] * [[0, 1], [1, 0]];",
        Value::list(vec![nums(&[2.0, 1.0]), nums(&[4.0, 3.0])]),
        &[],
    );
    tells("x = 2 * [1, [2, 3]];", Value::list(vec![num(2.0), nums(&[4.0, 6.0])]), &[]);
    tells("x = [6, 9] / 3;", nums(&[2.0, 3.0]), &[]);
    tells("x = -[1, -2];", nums(&[-1.0, 2.0]), &[]);
    tells(
        "x = [1, 2] * [[1, 2], [3, 4], [5, 6]];",
        Value::Undef,
        &["WARNING: vector*matrix requires vector length to match matrix row count (2 != 3)"],
    );
}

#[test]
fn orders_and_shifts_say_why_they_fail() {
    tells("x = 1 < 2;", Value::Bool(true), &[]);
    tells("x = \"b\" < \"a\";", Value::Bool(false), &[]);
    tells("x = [1, 2] < [1, 3];", Value::Bool(true), &[]);
    tells("x = (0 / 0) < 1;", Value::Bool(false), &[]);
    tells("x = 1 < \"a\";", Value::Undef, &["WARNING: undefined operation (number < string)"]);
    tells("x = undef < undef;", Value::Undef, &["WARNING: operation undefined (undefined < undefined)"]);
    tells(
        "x = [1, 2] > [1, \"b\"];",
        Value::Undef,
        &["WARNING: undefined operation (string < number)\n\tin vector comparison at index 1"],
    );
    tells("x = 1 == \"1\";", Value::Bool(false), &[]);
    tells("x = [1, 2] == [1, 2];", Value::Bool(true), &[]);
    tells("x = 1 << 3;", num(8.0), &[]);
    tells("x = 9 >> 1;", num(4.0), &[]);
    tells("x = 1 << 64;", Value::Undef, &["WARNING: shift too large"]);
    tells("x = 1 << -1;", Value::Undef, &["WARNING: negative shift"]);
    tells("x = 1 + \"a\";", Value::Undef, &["WARNING: undefined operation (number + string)"]);
}

#[test]
fn indices_and_members_reach_in() {
    tells("x = [4, 5, 6][1];", num(5.0), &[]);
    tells("x = [4, 5, 6][3];", Value::Undef, &[]);
    tells("x = [4, 5, 6].z;", num(6.0), &[]);
    tells("x = [4, 5].z;", Value::Undef, &[]);
    tells("x = \"abc\"[1];", Value::string("b"), &[]);
    tells("x = [0:2:9].end;", Value::Undef, &[]);
}

#[test]
fn a_compiler_is_handed_the_functions_and_the_constants() {
    let prog = parse("function sq(x) = x * x; LIMIT = 3; $fn = 8; y = 2;");
    let (mut island, functions) = program_island(&prog);
    for stmt in &prog.stmts {
        if let StmtKind::Assignment { name, value } = &stmt.kind {
            island.assignments.push((name, value));
        }
    }
    let islands = vec![island];
    assert!(compile_functions(&Squares, &functions, &islands, true).is_some());
    assert!(compile_functions(&Squares, &functions, &islands, false).is_none());
    let bare = parse("LIMIT = 3;");
    let (island, functions) = program_island(&bare);
    assert!(compile_functions(&Squares, &functions, &vec![island], true).is_none());
    assert!(matches!(answer_offer(None, 4), Reply::Compiled { outcome: None, draws: 4 }));
    let taken = answer_offer(Some((JitOutcome::Bool(true), 9)), 4);
    assert!(matches!(taken, Reply::Compiled { outcome: Some(JitOutcome::Bool(true)), draws: 9 }));
}

fn interpreted(src: &str, f: &str, args: Vec<Value>) -> Result<Value, Error> {
    interpret_fn(&parse(src), &name(f), &args, names(&BUILTINS), &no_registry(), &fpu, &host, FUEL)
}

#[test]
fn a_function_called_by_value_takes_its_defaults() {
    let gives = |src: &str, args: Vec<Value>, want: Value| {
        let got = interpreted(src, "f", args).expect(src);
        assert!(got.eq(&want, &fpu), "{src}: {got:?}");
    };
    gives("function f(x, y = 10) = x + y;", vec![num(5.0)], num(15.0));
    gives("function f(x, y = 10) = x + y;", vec![num(5.0), num(20.0)], num(25.0));
    gives("k = 2; function f(x, y = k) = x + y;", vec![num(5.0)], num(7.0));
    gives("function f(x, y) = y;", vec![num(5.0)], Value::Undef);
    gives("y = 4; function f(x, y) = y;", vec![num(5.0)], Value::Undef);
    gives("function f(x) = x;", vec![num(1.0), num(2.0)], num(1.0));
    assert!(interpreted("function f(x, y = assert(false) 1) = x;", "f", vec![num(5.0)]).is_err());
    assert_eq!(message(&interpreted("a = 1;", "f", Vec::new()).unwrap_err()), "function `f`");
}

#[test]
fn a_parameter_named_twice_takes_the_default_that_counts() {
    let prog = parse("module m(l, r, ang = 90, d, r = 0) {}\nm(l = 1);");
    let stmts = stmt_refs(&prog);
    let modules = collect_module_defs(&stmts);
    let (mut ctx, root) = build_ctx(&prog, names(&BUILTINS), &no_registry(), plain());
    let args = match &prog.stmts[1].kind {
        StmtKind::Module(mi) => &mi.args,
        other => panic!("{other:?}"),
    };
    let call = ctx.bind_module_scope(modules[0].params, args, root, root, &fpu, &host, FUEL).unwrap();
    assert!(matches!(call.lookup(&ctx.store, "r"), Value::Undef));
    assert!(call.lookup(&ctx.store, "l").eq(&num(1.0), &fpu));
    assert!(call.lookup(&ctx.store, "ang").eq(&num(90.0), &fpu));
}

#[test]
fn a_failure_in_the_root_file_has_its_place() {
    let src = "a = 1;\nb = assert(a > 1) 2;\ncube(1);";
    let e = resolve(src, &no_registry(), None).unwrap_err();
    let at = e.at.expect("a place");
    let prog = parse(src);
    match &prog.stmts[1].kind {
        StmtKind::Assignment { value, .. } => assert_eq!(at, value.span),
        other => panic!("{other:?}"),
    }
    assert!(matches!(e.error, Error::Assert(_)));
    let e = resolve("a = 1;\nif (assert(false) true) cube(1);", &no_registry(), None).unwrap_err();
    assert!(e.at.is_none());
}

#[test]
fn a_geometry_without_a_mesh_says_what_it_needs() {
    let mesh = |src: &str| {
        let prog = parse(src);
        let world = World::new(&prog, false);
        let drive = |c, g| world.drive(c, g);
        eval_program(&prog, names(&BUILTINS), &no_registry(), plain(), &drive, &fpu, &host, FUEL)
    };
    assert_eq!(mesh("cube(1);").unwrap().tris.len(), 1);
    assert!(mesh("a = 1;").unwrap().verts.is_empty());
    let e = mesh("difference() { cube(1); cube(2); }").unwrap_err();
    assert!(e.at.is_none());
    assert_eq!(
        message(&e.error),
        "geometry with transforms or booleans needs a backend \u{2014} use evaluate_geometry (J.2)"
    );
    let e = mesh("import(\"a.stl\");").unwrap_err();
    assert!(message(&e.error).starts_with("import/surface referenced 1 file(s)"));
}

#[test]
fn a_failed_call_by_value_leaves_no_call_under_way() {
    let prog = parse("function g(x) = assert(x > 5) x;\nf = function(x) g(x) + 1;");
    let (mut ctx, root) = build_ctx(&prog, names(&BUILTINS), &no_registry(), plain());
    let stmts = stmt_refs(&prog);
    let scope = ctx.hoist_scope(&stmts, root, &fpu, &host, FUEL).unwrap();
    let f = scope.lookup(&ctx.store, "f");
    let args = |x: f64| vec![ValArg { name: None, value: num(x) }];
    assert!(ctx.invoke_function_value(scope, &f, &args(1.0), &fpu, &host, FUEL).is_err());
    assert_eq!(ctx.live_calls, 0);
    let got = ctx.invoke_function_value(scope, &f, &args(6.0), &fpu, &host, FUEL).unwrap();
    assert!(got.eq(&num(7.0), &fpu));
    assert_eq!(ctx.live_calls, 0);
}

#[test]
fn functions_and_constants_are_offered_by_name() {
    let prog = parse("zeta = 1; function b(x) = x; alpha = 2; function a(x) = x; $s = 3; function b(y) = y + 1;");
    let world = World::new(&prog, false);
    let functions = tagged_functions(&world.islands);
    let defs: Vec<&str> = jit_defs(&functions).iter().map(|d| d.name.as_str()).collect();
    assert_eq!(defs, ["a", "b"]);
    assert_eq!(functions[1].params[0].name.as_str(), "y");
    let consts: Vec<&str> = jit_consts(&world.islands).iter().map(|c| c.name.as_str()).collect();
    assert_eq!(consts, ["alpha", "zeta"]);
}

#[test]
fn a_constant_that_is_no_number_is_laid_open() {
    let refusal = |v: Value| {
        let consts = vec![(name("C"), v)];
        bake_entry(&name("e"), &consts, &mut Vec::new(), &printed).unwrap_err()
    };
    let text = |held: &str| format!("e: consts_v `C` bakes {held} \u{2014} not emittable in v0");
    assert_eq!(refusal(Value::Undef), text("Undef"));
    assert_eq!(refusal(Value::Bool(true)), text("Bool(true)"));
    assert_eq!(refusal(Value::Str(name("a\"b"))), text("Str(\"a\\\"b\")"));
    let (o, l) = (0.0_f64.to_bits(), 1.0_f64.to_bits());
    assert_eq!(
        refusal(Value::Range { start: o, step: l, end: f64::INFINITY.to_bits() }),
        text("Range { start: 0.0, step: 1.0, end: inf }")
    );
    let list = eval_last("x = [\"a\", [1, 2], undef];");
    assert_eq!(refusal(list), text("List(ValueList([Str(\"a\"), NumList([1.0, 2.0]), Undef]))"));
}

#[test]
fn the_generated_file_has_its_functions() {
    let entries = generated_entries();
    assert_eq!(entries.len(), 16);
    assert_eq!((entries[0], entries[4], entries[15]), ("_fab_poc_sq", "is_nan", "_fab_poc_band4"));
}

#[test]
fn nesting_counts_general_lists() {
    let deeper = |src: &str, limit: usize| nests_deeper_than(&eval_last(src), limit);
    assert!(!deeper("x = 1;", 0));
    assert!(!deeper("x = [1, 2];", 0));
    assert!(deeper("x = [\"a\"];", 0));
    assert!(!deeper("x = [\"a\"];", 1));
    assert!(deeper("x = [[\"a\"], 1];", 1));
    assert!(!deeper("x = [[\"a\"], 1];", 2));
    assert!(!deeper("x = [[1, 2], [3, 4]];", 1));
}

/// The module calls of a program that native code makes.
fn shared<'a>(prog: &'a Program) -> Modules<'a> {
    Modules {
        islands: World::new(prog, false).islands,
        local_modules: Vec::new(),
        module_depth: 0,
        peak_module_depth: 0,
        native_depth: 0,
        native_runs: 0,
        native_child_declines: 0,
        children_stack: Vec::new(),
    }
}

/// A compiled body at the top of a file.
fn top<'a>(scope: Scope) -> NativeModuleCtx<'a> {
    let none = CallChildren::Stmts { stmts: Vec::new(), assigns: Vec::new(), scope, island: 0 };
    NativeModuleCtx {
        args: Rc::new(Vec::new()),
        children: Rc::new(none),
        call_scope: scope,
        home_island: 0,
        def_body: None,
        local_fn_group: None,
    }
}

#[test]
fn a_native_call_counts_its_children_and_the_modules_that_run() {
    let prog = parse("module outer(a) { inner(a); } module inner(b = 2) { cube(b); }");
    let (mut ctx, root) = build_ctx(&prog, names(&BUILTINS), &no_registry(), plain());
    let mut m = shared(&prog);
    let me = top(root);
    let args = |x: f64| vec![ValArg { name: None, value: num(x) }];
    let none = names(&[]);
    let begun = m.call(&mut ctx, &me, &name("outer"), &args(3.0), Some(vec![7, 8]), true, &none, &fpu, &host, FUEL);
    let (outer, mark) = match begun {
        Ok(Begun::Native(a, mark)) => (a, mark),
        other => panic!("{other:?}"),
    };
    let read = |ctx: &Ctx, scope: Scope, what: &str| scope.lookup(&ctx.store, what);
    assert!(read(&ctx, outer.call_scope, "$children").eq(&num(2.0), &fpu));
    assert!(read(&ctx, outer.call_scope, "$parent_modules").eq(&num(1.0), &fpu));
    assert!(read(&ctx, outer.call_scope, "a").eq(&num(3.0), &fpu));
    let begun = m.call(&mut ctx, &outer, &name("inner"), &Vec::new(), None, false, &none, &fpu, &host, FUEL);
    let scope = match begun {
        Ok(Begun::Interpret { scope, .. }) => scope,
        other => panic!("{other:?}"),
    };
    assert!(read(&ctx, scope, "$children").eq(&num(0.0), &fpu));
    assert!(read(&ctx, scope, "$parent_modules").eq(&num(2.0), &fpu));
    assert!(read(&ctx, scope, "b").eq(&num(2.0), &fpu));
    assert_eq!((m.module_depth, m.native_depth, m.children_stack.len(), ctx.module_stack.len()), (2, 1, 1, 2));
    m.end_interpreted(&mut ctx);
    m.end_native(&mut ctx, mark);
    assert_eq!((m.module_depth, m.native_depth, m.children_stack.len(), ctx.module_stack.len()), (0, 0, 0, 0));
    assert_eq!((native_module_runs(&m), m.local_modules.len()), (0, 0));
    m.note_native_run();
    assert_eq!(native_module_runs(&m), 1);
}

#[test]
fn a_native_call_that_comes_to_nothing_holds_nothing() {
    let prog = parse("module plain() { cube(1); } module picky(a = assert(false) 1) { cube(a); }");
    let (mut ctx, root) = build_ctx(&prog, names(&BUILTINS), &no_registry(), plain());
    let mut m = shared(&prog);
    let me = top(root);
    let none = names(&[]);
    let mut call = |what: &str, thunks: Option<Vec<u64>>| {
        let r = m.call(&mut ctx, &me, &name(what), &Vec::new(), thunks, false, &none, &fpu, &host, FUEL);
        let held = (m.module_depth, m.native_depth, m.children_stack.len(), ctx.module_stack.len());
        assert_eq!(held, (0, 0, 0, 0));
        r.map(|b| matches!(b, Begun::Builtin(_))).map_err(|e| message(&e))
    };
    assert_eq!(call("cube", None), Ok(true));
    assert!(call("picky", None).is_err());
    assert_eq!(
        call("plain", Some(vec![1])),
        Err("a compiled child block handed to an interpreted module (AR.20.7)".to_string())
    );
    assert_eq!(call("echo", None), Err("a statement-form module name reached compiled dispatch".to_string()));
}

#[test]
fn walking_an_expression_only_adds() {
    let prog = parse("x = let(a = 1) [for (i = [0:a]) i + b + is_num(c) + $d + f(a)];");
    let value = match &prog.stmts[0].kind {
        StmtKind::Assignment { value, .. } => value,
        other => panic!("{other:?}"),
    };
    let mut out = Analysis {
        name: name("t"),
        params: names(&["p"]),
        consts: NameSet::new(),
        deps: NameSet::new(),
        builtins: NameSet::new(),
    };
    out.consts.insert(name("before"));
    let mut scope = names(&["b"]);
    walk(value, &mut scope, &mut out, &names(&BUILTINS));
    assert_eq!(scope, names(&["b"]));
    assert_eq!((out.name.as_str(), out.params.len()), ("t", 1));
    assert_eq!(listed(&out.consts), ["before", "c"]);
    assert_eq!((listed(&out.deps), listed(&out.builtins)), (vec!["f".to_string()], vec!["is_num".to_string()]));
}

#[test]
fn what_is_said_of_a_reassignment_goes_by_the_files() {
    let said = |first_file: usize, at_file: usize, lines: (u64, u64)| {
        let o = Overwrite { at: 9, name: name("a"), first: 0, first_file, at_file };
        verdict(&o, lines.0, lines.1)
    };
    assert_eq!(said(0, 0, (1, 2)), Verdict::Bare);
    assert_eq!(said(0, 0, (1, 1)), Verdict::Bare);
    assert_eq!(said(2, 2, (1, 2)), Verdict::Named(2));
    assert_eq!(said(2, 2, (1, 1)), Verdict::Silent);
    assert_eq!(said(0, 2, (1, 1)), Verdict::Named(0));
    assert_eq!(said(2, 0, (1, 2)), Verdict::Silent);
    assert_eq!(said(2, 3, (1, 2)), Verdict::Silent);
}
