use vstd::prelude::*;
use vstd::string::{StringExecFns, StringSliceAdditionalSpecFns};
use vstd::utf8::{decode_utf8, encode_utf8};
use crate::parser::{exprs_view, lemma_stmts_view, stmt_view, stmts_view, Expr, ExprV, Program, Stmt, StmtV};
use crate::text::{decimal_text, digit_char, digits_text, push_digits, push_i32, wat_escape, wat_escaped};

verus! {

broadcast use vstd::utf8::group_utf8_lib;

/// The lowercase hexadecimal digit of a value below 16, as a byte.
pub open spec fn hex_byte(n: u8) -> u8 {
    if n < 10 {
        (0x30 + n) as u8
    } else {
        (0x57 + n) as u8
    }
}

/// How `serde_json` writes one byte of a string's UTF-8 text inside a JSON string: `"` and
/// `\` after a backslash, the control bytes with a short escape where JSON has one and as
/// `\u00xx` otherwise, every other byte as it is.
pub open spec fn json_byte(c: u8) -> Seq<u8> {
    if c == 0x22 {
        seq![0x5cu8, 0x22]
    } else if c == 0x5c {
        seq![0x5cu8, 0x5c]
    } else if c == 0x08 {
        seq![0x5cu8, 0x62]
    } else if c == 0x09 {
        seq![0x5cu8, 0x74]
    } else if c == 0x0a {
        seq![0x5cu8, 0x6e]
    } else if c == 0x0c {
        seq![0x5cu8, 0x66]
    } else if c == 0x0d {
        seq![0x5cu8, 0x72]
    } else if c < 0x20 {
        seq![0x5cu8, 0x75, 0x30, 0x30, hex_byte(c / 16), hex_byte(c % 16)]
    } else {
        seq![c]
    }
}

/// The bytes `b`, each escaped as in a JSON string.
pub open spec fn json_escaped(b: Seq<u8>) -> Seq<u8>
    decreases b.len(),
{
    if b.len() == 0 {
        seq![]
    } else {
        json_escaped(b.drop_last()) + json_byte(b.last())
    }
}

/// The JSON string literal for the text whose UTF-8 bytes are `b`.
pub open spec fn json_quoted(b: Seq<u8>) -> Seq<u8> {
    seq![0x22u8] + json_escaped(b) + seq![0x22u8]
}

/// Relies on `serde_json::to_vec` on a `str`: a quote, each byte escaped by the table
/// `ESCAPE` and `write_char_escape` of its serializer, and a closing quote.
/// For a string it fails only on an I/O error of the writer, and writing into a `Vec` has none.
#[verifier::external_body]
fn json_quote(s: &str) -> (r: Vec<u8>)
    ensures
        r@ == json_quoted(s.spec_bytes()),
{
    serde_json::to_vec(s).unwrap()
}

/// The interned form of a string literal whose text has the UTF-8 bytes `w`.
pub open spec fn key_of(w: Seq<u8>) -> Seq<u8> {
    json_quoted(w)
}

/// The interned forms of the string arguments, in order.
pub open spec fn arg_keys(args: Seq<ExprV>) -> Seq<Seq<u8>>
    decreases args.len(),
{
    if args.len() == 0 {
        seq![]
    } else {
        let rest = arg_keys(args.drop_last());
        match args.last() {
            ExprV::Str(w) => rest.push(key_of(w)),
            _ => rest,
        }
    }
}

/// The interned forms of the string literals of a statement, depth first.
pub open spec fn stmt_keys(s: StmtV) -> Seq<Seq<u8>>
    decreases s,
{
    match s {
        StmtV::Log(args) => arg_keys(args),
        StmtV::For { body, .. } => block_keys(body),
    }
}

/// The interned forms of the string literals of a statement list, in program order.
pub open spec fn block_keys(ss: Seq<StmtV>) -> Seq<Seq<u8>>
    decreases ss,
{
    if ss.len() == 0 {
        seq![]
    } else {
        block_keys(ss.subrange(0, ss.len() - 1)) + stmt_keys(ss[ss.len() - 1])
    }
}

/// `x` rounded up to a multiple of 16.
pub open spec fn align16(x: int) -> int {
    if x % 16 == 0 {
        x
    } else {
        x + (16 - x % 16)
    }
}

/// Some entry of the table has the key `k`.
pub open spec fn has_key(t: Seq<(Seq<u8>, int)>, k: Seq<u8>) -> bool {
    exists|i: int| 0 <= i < t.len() && #[trigger] t[i].0 == k
}

/// No two entries of the table share a key.
pub open spec fn unique_keys(t: Seq<(Seq<u8>, int)>) -> bool {
    forall|i: int, j: int| 0 <= i < j < t.len() ==> #[trigger] t[i].0 != #[trigger] t[j].0
}

/// The data segments for the keys, each a key and its offset, in first-seen order,
/// with the offset where the next one would start.
pub open spec fn layout(keys: Seq<Seq<u8>>) -> (Seq<(Seq<u8>, int)>, int)
    decreases keys.len(),
{
    if keys.len() == 0 {
        (seq![], 16)
    } else {
        let prev = layout(keys.drop_last());
        let k = keys.last();
        if has_key(prev.0, k) {
            prev
        } else {
            (prev.0.push((k, prev.1)), align16(prev.1 + k.len()))
        }
    }
}

/// The offset of the segment with key `k`.
pub open spec fn offset_of(t: Seq<(Seq<u8>, int)>, k: Seq<u8>) -> int {
    t[choose|i: int| 0 <= i < t.len() && #[trigger] t[i].0 == k].1
}

/// The layout of a whole program fits the machine's addresses.
pub open spec fn fits(p: Seq<StmtV>) -> bool {
    layout(block_keys(p)).1 <= usize::MAX
}

/// The data segment at offset 0: the name of the host function, `console.log`.
pub const DATA_HEAD: &'static str = "  (data (i32.const 0) \"console.log\")\n";

/// The declaration of one data segment.
pub open spec fn segment_text(e: (Seq<u8>, int)) -> Seq<char> {
    "  (data (i32.const "@ + decimal_text(e.1) + ") \""@ + wat_escaped(e.0) + "\")\n"@
}

/// The declarations of the data segments, in table order.
pub open spec fn segments_text(t: Seq<(Seq<u8>, int)>) -> Seq<char>
    decreases t.len(),
{
    if t.len() == 0 {
        seq![]
    } else {
        segments_text(t.drop_last()) + segment_text(t.last())
    }
}

/// Writes `[` at the scratch address 512 and sets the write cursor `$.pos` to 1; the dot keeps it apart
/// from every loop variable, since identifiers hold none.
pub const LOG_OPEN: &'static str = "    i32.const 512\n    i32.const 91  ;; '['\n    i32.store8\n    i32.const 1\n    local.set $.pos\n";

/// Writes `,` at the cursor and advances it by one.
pub const LOG_COMMA: &'static str = "    i32.const 512\n    local.get $.pos\n    i32.add\n    i32.const 44  ;; ','\n    i32.store8\n    local.get $.pos\n    i32.const 1\n    i32.add\n    local.set $.pos\n";

/// Starts copying an interned JSON string to the cursor; the source offset follows.
pub const COPY_HEAD: &'static str = "    ;; copy JSON string\n    i32.const 512\n    local.get $.pos\n    i32.add\n    i32.const ";

/// Ends one line and starts an `i32.const` on the next.
pub const CONST_NEXT: &'static str = "\n    i32.const ";

/// Ends the copy and starts advancing the cursor by the copied length.
pub const COPY_TAIL: &'static str = "\n    memory.copy\n    local.get $.pos\n    i32.const ";

/// Adds the value on the stack to the cursor.
pub const ADVANCE: &'static str = "\n    i32.add\n    local.set $.pos\n";

/// Formats the value on the stack at the cursor and advances the cursor by what was written.
pub const FORMAT_CALL: &'static str = "\n    i32.const 512\n    local.get $.pos\n    i32.add\n    call $i32_to_json\n    local.get $.pos\n    i32.add\n    local.set $.pos\n";

/// Writes `]`, then calls the host with the name, the array, and the reply buffer at 4096
/// of capacity 1024, and drops the result.
pub const LOG_CLOSE: &'static str = "    i32.const 512\n    local.get $.pos\n    i32.add\n    i32.const 93  ;; ']'\n    i32.store8\n    local.get $.pos\n    i32.const 1\n    i32.add\n    local.set $.pos\n    i32.const 0      ;; name: \"console.log\"\n    i32.const 11\n    i32.const 512   ;; args ptr\n    local.get $.pos  ;; args len\n    i32.const 4096  ;; ret ptr\n    i32.const 1024  ;; ret cap\n    call $invoke\n    drop\n";

/// The instructions that write one argument into the JSON array.
pub open spec fn arg_text(e: ExprV, t: Seq<(Seq<u8>, int)>) -> Seq<char> {
    match e {
        ExprV::Str(w) => COPY_HEAD@ + decimal_text(offset_of(t, key_of(w))) + CONST_NEXT@
            + decimal_text(key_of(w).len() as int) + COPY_TAIL@ + decimal_text(
            key_of(w).len() as int,
        ) + ADVANCE@,
        ExprV::Var(w) => "    ;; var "@ + decode_utf8(w) + " -> JSON\n    local.get $"@ + decode_utf8(
            w,
        ) + FORMAT_CALL@,
        ExprV::Int(v) => "    ;; int "@ + decimal_text(v as int) + CONST_NEXT@ + decimal_text(
            v as int,
        ) + FORMAT_CALL@,
    }
}

/// The instructions for the arguments, with a comma before each but the first.
pub open spec fn args_text(args: Seq<ExprV>, t: Seq<(Seq<u8>, int)>) -> Seq<char>
    decreases args.len(),
{
    if args.len() == 0 {
        seq![]
    } else {
        args_text(args.drop_last(), t) + (if args.len() > 1 {
            LOG_COMMA@
        } else {
            seq![]
        }) + arg_text(args.last(), t)
    }
}

/// The loop head of `for n = a to b`: set the variable to `a`, enter the loop, and leave it
/// when the variable is greater than `b`.
pub open spec fn for_open(n: Seq<char>, a: i32, b: i32) -> Seq<char> {
    "    ;; for "@ + n + " = "@ + decimal_text(a as int) + " to "@ + decimal_text(b as int)
        + CONST_NEXT@ + decimal_text(a as int) + "\n    local.set $"@ + n
        + "\n    block $exit\n    loop $loop\n    local.get $"@ + n + CONST_NEXT@ + decimal_text(
        b as int,
    ) + "\n    i32.gt_s\n    br_if $exit\n"@
}

/// The loop tail: add one to the variable and go back to the head. For the bound `i32::MAX`
/// alone, the tail first leaves when the variable has reached the bound.
pub open spec fn for_close(n: Seq<char>, b: i32) -> Seq<char> {
    (if b == i32::MAX {
        "    local.get $"@ + n + "\n    i32.const 2147483647\n    i32.eq\n    br_if $exit\n"@
    } else {
        seq![]
    }) + "    local.get $"@ + n + "\n    i32.const 1\n    i32.add\n    local.set $"@ + n
        + "\n    br $loop\n    end\n    end\n"@
}

/// The instructions of a statement.
pub open spec fn stmt_text(s: StmtV, t: Seq<(Seq<u8>, int)>) -> Seq<char>
    decreases s,
{
    match s {
        StmtV::Log(args) => LOG_OPEN@ + args_text(args, t) + LOG_CLOSE@,
        StmtV::For { name, start, end, body } => for_open(decode_utf8(name), start, end)
            + block_text(body, t) + for_close(decode_utf8(name), end),
    }
}

/// The instructions of a statement list, in order.
pub open spec fn block_text(ss: Seq<StmtV>, t: Seq<(Seq<u8>, int)>) -> Seq<char>
    decreases ss,
{
    if ss.len() == 0 {
        seq![]
    } else {
        block_text(ss.subrange(0, ss.len() - 1), t) + stmt_text(ss[ss.len() - 1], t)
    }
}

/// The loop variable names of a statement, depth first, repeats included.
pub open spec fn stmt_vars(s: StmtV) -> Seq<Seq<char>>
    decreases s,
{
    match s {
        StmtV::Log(_) => seq![],
        StmtV::For { name, body, .. } => seq![decode_utf8(name)] + block_vars(body),
    }
}

/// The loop variable names of a statement list, depth first, repeats included.
pub open spec fn block_vars(ss: Seq<StmtV>) -> Seq<Seq<char>>
    decreases ss,
{
    if ss.len() == 0 {
        seq![]
    } else {
        block_vars(ss.subrange(0, ss.len() - 1)) + stmt_vars(ss[ss.len() - 1])
    }
}

/// `acc` followed by the names of `s` that are not already there, first occurrence first.
pub open spec fn dedup_onto(acc: Seq<Seq<char>>, s: Seq<Seq<char>>) -> Seq<Seq<char>>
    decreases s.len(),
{
    if s.len() == 0 {
        acc
    } else {
        let d = dedup_onto(acc, s.drop_last());
        if d.contains(s.last()) {
            d
        } else {
            d.push(s.last())
        }
    }
}

/// One local declaration per name.
pub open spec fn locals_text(vs: Seq<Seq<char>>) -> Seq<char>
    decreases vs.len(),
{
    if vs.len() == 0 {
        seq![]
    } else {
        locals_text(vs.drop_last()) + "    (local $"@ + vs.last() + " i32)\n"@
    }
}

/// The module header: the imported host function and one exported page of memory.
pub const MODULE_HEAD: &'static str = "(module\n  (import \"gaufre\" \"invoke\" (func $invoke (param i32 i32 i32 i32 i32 i32) (result i32)))\n  (memory (export \"memory\") 1)\n";

/// The exported entry routine and its write cursor.
pub const MAIN_HEAD: &'static str = "  (func (export \"main\")\n    (local $.pos i32)\n";

/// Closes the entry routine and the module.
pub const MODULE_TAIL: &'static str = "  )\n)\n";

/// The routine that writes a 32-bit signed value as decimal text at an address and returns
/// its length: digits least significant first, then the sign, then the span reversed.
pub const FORMAT_ROUTINE: &'static str = r#"
  ;; i32_to_json(val, dst) -> len
  (func $i32_to_json (param $v i32) (param $dst i32) (result i32)
    (local $neg i32) (local $pos i32) (local $d i32) (local $i i32) (local $j i32) (local $t i32)
    i32.const 0
    local.set $neg
    local.get $v
    i32.const 0
    i32.lt_s
    if
      i32.const 1
      local.set $neg
      i32.const 0
      local.get $v
      i32.sub
      local.set $v
    end
    ;; v==0 -> "0"
    local.get $v
    i32.eqz
    if
      local.get $dst
      i32.const 48
      i32.store8
      i32.const 1
      return
    end
    i32.const 0
    local.set $pos
    block $digits_exit
      loop $digits
        local.get $v
        i32.const 10
        i32.rem_u
        local.set $d
        local.get $dst
        local.get $pos
        i32.add
        local.get $d
        i32.const 48
        i32.add
        i32.store8
        local.get $pos
        i32.const 1
        i32.add
        local.set $pos

        local.get $v
        i32.const 10
        i32.div_u
        local.set $v

        local.get $v
        i32.eqz
        br_if $digits_exit
        br $digits
      end
    end
    ;; append '-' when negative
    local.get $neg
    if
      local.get $dst
      local.get $pos
      i32.add
      i32.const 45
      i32.store8
      local.get $pos
      i32.const 1
      i32.add
      local.set $pos
    end
    ;; reverse in place [0..pos-1]
    i32.const 0
    local.set $i
    local.get $pos
    i32.const 1
    i32.sub
    local.set $j
    block $rev_exit
      loop $rev
        local.get $i
        local.get $j
        i32.ge_u
        br_if $rev_exit

        local.get $dst
        local.get $i
        i32.add
        i32.load8_u
        local.set $t

        local.get $dst
        local.get $i
        i32.add
        local.get $dst
        local.get $j
        i32.add
        i32.load8_u
        i32.store8

        local.get $dst
        local.get $j
        i32.add
        local.get $t
        i32.store8

        local.get $i
        i32.const 1
        i32.add
        local.set $i

        local.get $j
        i32.const 1
        i32.sub
        local.set $j

        br $rev
      end
    end
    local.get $pos
  )
"#;

/// The whole module text for a program.
pub open spec fn module_text(p: Seq<StmtV>) -> Seq<char> {
    let t = layout(block_keys(p)).0;
    MODULE_HEAD@ + DATA_HEAD@ + segments_text(t) + FORMAT_ROUTINE@ + MAIN_HEAD@ + locals_text(
        dedup_onto(seq![], block_vars(p)),
    ) + block_text(p, t) + MODULE_TAIL@
}

/// The byte vectors, as sequences.
pub open spec fn keys_view(v: Seq<Vec<u8>>) -> Seq<Seq<u8>> {
    v.map_values(|x: Vec<u8>| x@)
}

/// The segment table, with keys as sequences and offsets as integers.
pub open spec fn table_view(v: Seq<(Vec<u8>, usize)>) -> Seq<(Seq<u8>, int)> {
    v.map_values(|e: (Vec<u8>, usize)| (e.0@, e.1 as int))
}

/// Every key of `ks` has an entry in the table.
pub open spec fn keys_in(ks: Seq<Seq<u8>>, t: Seq<(Seq<u8>, int)>) -> bool {
    forall|i: int| 0 <= i < ks.len() ==> has_key(t, #[trigger] ks[i])
}

/// Appends the interned forms of the string literals of `ss`, in program order.
fn walk_strings(ss: &Vec<Stmt>, out: &mut Vec<Vec<u8>>)
    ensures
        keys_view(final(out)@) == keys_view(old(out)@) + block_keys(stmts_view(ss@)),
    decreases ss,
{
    let mut i: usize = 0;
    while i < ss.len()
        invariant
            0 <= i <= ss@.len(),
            keys_view(out@) == keys_view(old(out)@) + block_keys(
                stmts_view(ss@.subrange(0, i as int)),
            ),
        decreases ss@.len() - i,
    {
        let ghost before = keys_view(out@);
        let ghost pre = ss@.subrange(0, i as int);
        let ghost next = ss@.subrange(0, i + 1);
        proof {
            assert(next.subrange(0, next.len() - 1) =~= pre);
            assert(stmts_view(next) == stmts_view(pre).push(stmt_view(ss@[i as int])));
            assert(stmts_view(next).subrange(0, stmts_view(next).len() - 1) =~= stmts_view(pre));
            assert(block_keys(stmts_view(next)) == block_keys(stmts_view(pre)) + stmt_keys(
                stmt_view(ss@[i as int]),
            ));
        }
        match &ss[i] {
            Stmt::Log(args) => {
                let mut k: usize = 0;
                while k < args.len()
                    invariant
                        0 <= k <= args@.len(),
                        keys_view(out@) == before + arg_keys(
                            exprs_view(args@).subrange(0, k as int),
                        ),
                    decreases args@.len() - k,
                {
                    let ghost mid = keys_view(out@);
                    proof {
                        let a = exprs_view(args@).subrange(0, k + 1);
                        assert(a.drop_last() =~= exprs_view(args@).subrange(0, k as int));
                    }
                    match &args[k] {
                        Expr::Str(t) => {
                            out.push(json_quote(t.as_str()));
                            proof {
                                assert(keys_view(out@) =~= mid.push(json_quoted(encode_utf8(t@))));
                            }
                        },
                        _ => {},
                    }
                    k = k + 1;
                }
                proof {
                    assert(exprs_view(args@).subrange(0, args@.len() as int) =~= exprs_view(
                        args@,
                    ));
                }
            },
            Stmt::For { body, .. } => {
                walk_strings(body, out);
            },
        }
        proof {
            assert(keys_view(out@) =~= keys_view(old(out)@) + block_keys(stmts_view(next)));
        }
        i = i + 1;
    }
    proof {
        assert(ss@.subrange(0, ss@.len() as int) =~= ss@);
    }
}

proof fn lemma_align16(x: int)
    requires
        x >= 0,
    ensures
        x <= align16(x) <= x + 15,
        align16(x) % 16 == 0,
{
}

/// The layout of a prefix of the keys ends no later than the whole layout,
/// starts at 16, and never repeats a key.
proof fn lemma_layout(keys: Seq<Seq<u8>>, i: int)
    requires
        0 <= i <= keys.len(),
    ensures
        16 <= layout(keys.subrange(0, i)).1 <= layout(keys).1,
        unique_keys(layout(keys).0),
    decreases keys.len(),
{
    if keys.len() == 0 {
        assert(keys.subrange(0, i) =~= keys);
    } else {
        let d = keys.drop_last();
        if i == keys.len() {
            assert(keys.subrange(0, i) =~= keys);
            lemma_layout(d, d.len() as int);
        } else {
            assert(d.subrange(0, i) =~= keys.subrange(0, i));
            lemma_layout(d, i);
        }
        assert(d.subrange(0, d.len() as int) =~= d);
        let prev = layout(d);
        if !has_key(prev.0, keys.last()) {
            lemma_align16(prev.1 + keys.last().len());
            let t = prev.0.push((keys.last(), prev.1));
            assert forall|a: int, b: int| 0 <= a < b < t.len() implies #[trigger] t[a].0
                != #[trigger] t[b].0 by {
                if b == t.len() - 1 {
                    assert(prev.0[a].0 == t[a].0);
                }
            }
        }
    }
}

/// Every key has an entry in its layout.
proof fn lemma_layout_has_keys(keys: Seq<Seq<u8>>)
    ensures
        keys_in(keys, layout(keys).0),
    decreases keys.len(),
{
    if keys.len() > 0 {
        let d = keys.drop_last();
        lemma_layout_has_keys(d);
        let prev = layout(d);
        let t = layout(keys).0;
        assert forall|i: int| 0 <= i < keys.len() implies has_key(t, #[trigger] keys[i]) by {
            if i < keys.len() - 1 {
                assert(d[i] == keys[i]);
                assert(has_key(prev.0, d[i]));
                let j = choose|j: int| 0 <= j < prev.0.len() && #[trigger] prev.0[j].0 == d[i];
                if !has_key(prev.0, keys.last()) {
                    assert(t[j] == prev.0[j]);
                }
            } else if !has_key(prev.0, keys.last()) {
                assert(t[t.len() - 1].0 == keys.last());
            }
        }
    }
}

/// True when the bytes are the same.
fn same_bytes(a: &[u8], b: &[u8]) -> (r: bool)
    ensures
        r == (a@ == b@),
{
    if a.len() != b.len() {
        return false;
    }
    let mut i: usize = 0;
    while i < a.len()
        invariant
            0 <= i <= a@.len(),
            a@.len() == b@.len(),
            forall|j: int| 0 <= j < i ==> a@[j] == b@[j],
        decreases a@.len() - i,
    {
        if a[i] != b[i] {
            return false;
        }
        i = i + 1;
    }
    proof {
        assert(a@ =~= b@);
    }
    true
}

/// Lays out one data segment per distinct key, in first-seen order, and writes their
/// declarations; `None` when an offset would not fit in a `usize`.
fn intern_strings(keys: &Vec<Vec<u8>>) -> (r: Option<(Vec<(Vec<u8>, usize)>, String)>)
    ensures
        match r {
            Some((t, d)) => layout(keys_view(keys@)).1 <= usize::MAX && table_view(t@) == layout(
                keys_view(keys@),
            ).0 && d@ == segments_text(layout(keys_view(keys@)).0),
            None => layout(keys_view(keys@)).1 > usize::MAX,
        },
{
    let ghost kv = keys_view(keys@);
    let mut table: Vec<(Vec<u8>, usize)> = Vec::new();
    let mut data = String::new();
    let mut next: usize = 16;
    let mut i: usize = 0;
    proof {
        assert(kv.subrange(0, 0) =~= Seq::<Seq<u8>>::empty());
        assert(table_view(table@) =~= Seq::<(Seq<u8>, int)>::empty());
    }
    while i < keys.len()
        invariant
            0 <= i <= keys@.len(),
            kv == keys_view(keys@),
            table_view(table@) == layout(kv.subrange(0, i as int)).0,
            next as int == layout(kv.subrange(0, i as int)).1,
            data@ == segments_text(table_view(table@)),
        decreases keys@.len() - i,
    {
        let ghost pre = kv.subrange(0, i as int);
        let ghost tv = table_view(table@);
        proof {
            let nx = kv.subrange(0, i + 1);
            assert(nx.drop_last() =~= pre);
            lemma_layout(kv, i as int);
            lemma_layout(kv, i + 1);
            lemma_layout(pre, i as int);
        }
        let k = &keys[i];
        let mut j: usize = 0;
        let mut found = false;
        while j < table.len() && !found
            invariant
                0 <= j <= table@.len(),
                tv == table_view(table@),
                k@ == kv[i as int],
                found ==> j < tv.len() && tv[j as int].0 == k@,
                !found ==> forall|jj: int| 0 <= jj < j ==> tv[jj].0 != k@,
            decreases table@.len() - j + (if found {
                0int
            } else {
                1int
            }),
        {
            if same_bytes(table[j].0.as_slice(), k.as_slice()) {
                found = true;
            } else {
                j = j + 1;
            }
        }
        if !found {
            proof {
                assert(!has_key(tv, k@));
            }
            let len = k.len();
            if len > usize::MAX - next {
                return None;
            }
            let end = next + len;
            let rem = end % 16;
            let aligned = if rem == 0 {
                end
            } else {
                if end > usize::MAX - (16 - rem) {
                    return None;
                }
                end + (16 - rem)
            };
            data.append("  (data (i32.const ");
            push_digits(&mut data, next as u64);
            data.append(") \"");
            wat_escape(&mut data, k.as_slice());
            data.append("\")\n");
            table.push((k.clone(), next));
            proof {
                assert(table_view(table@) =~= tv.push((k@, next as int)));
                assert(table_view(table@).drop_last() =~= tv);
            }
            next = aligned;
        } else {
            proof {
                assert(tv[j as int].0 == k@);
                assert(has_key(tv, k@));
            }
        }
        i = i + 1;
    }
    proof {
        assert(kv.subrange(0, kv.len() as int) =~= kv);
    }
    Some((table, data))
}

proof fn lemma_offset_at(t: Seq<(Seq<u8>, int)>, j: int)
    requires
        unique_keys(t),
        0 <= j < t.len(),
    ensures
        offset_of(t, t[j].0) == t[j].1,
{
    let k = t[j].0;
    assert(t[j].0 == k);
    let c = choose|c: int| 0 <= c < t.len() && #[trigger] t[c].0 == k;
    if c < j {
        assert(t[c].0 != t[j].0);
    } else if c > j {
        assert(t[j].0 != t[c].0);
    }
}

/// The offset of the entry with key `k`.
fn find_offset(t: &Vec<(Vec<u8>, usize)>, k: &[u8]) -> (r: usize)
    requires
        unique_keys(table_view(t@)),
        has_key(table_view(t@), k@),
    ensures
        r as int == offset_of(table_view(t@), k@),
{
    let ghost tv = table_view(t@);
    let mut j: usize = 0;
    while j < t.len()
        invariant
            0 <= j <= t@.len(),
            tv == table_view(t@),
            unique_keys(tv),
            has_key(tv, k@),
            forall|jj: int| 0 <= jj < j ==> tv[jj].0 != k@,
        decreases t@.len() - j,
    {
        if same_bytes(t[j].0.as_slice(), k) {
            proof {
                lemma_offset_at(tv, j as int);
            }
            return t[j].1;
        }
        j = j + 1;
    }
    proof {
        let c = choose|c: int| 0 <= c < tv.len() && #[trigger] tv[c].0 == k@;
        assert(tv[c].0 != k@);
    }
    0
}

/// The names, as character sequences.
pub open spec fn names_view(v: Seq<String>) -> Seq<Seq<char>> {
    v.map_values(|x: String| x@)
}

proof fn lemma_dedup_concat(a: Seq<Seq<char>>, x: Seq<Seq<char>>, y: Seq<Seq<char>>)
    ensures
        dedup_onto(a, x + y) == dedup_onto(dedup_onto(a, x), y),
    decreases y.len(),
{
    if y.len() == 0 {
        assert(x + y =~= x);
    } else {
        assert((x + y).drop_last() =~= x + y.drop_last());
        lemma_dedup_concat(a, x, y.drop_last());
    }
}

/// Appends to `acc` each loop variable name of `ss` not already there, in encounter order.
fn collect_vars(ss: &Vec<Stmt>, acc: &mut Vec<String>)
    ensures
        names_view(final(acc)@) == dedup_onto(names_view(old(acc)@), block_vars(stmts_view(ss@))),
    decreases ss,
{
    let mut i: usize = 0;
    proof {
        assert(stmts_view(ss@.subrange(0, 0)) =~= Seq::<StmtV>::empty());
    }
    while i < ss.len()
        invariant
            0 <= i <= ss@.len(),
            names_view(acc@) == dedup_onto(
                names_view(old(acc)@),
                block_vars(stmts_view(ss@.subrange(0, i as int))),
            ),
        decreases ss@.len() - i,
    {
        let ghost pre = ss@.subrange(0, i as int);
        let ghost next = ss@.subrange(0, i + 1);
        let ghost a0 = names_view(old(acc)@);
        proof {
            assert(next.subrange(0, next.len() - 1) =~= pre);
            assert(stmts_view(next).subrange(0, stmts_view(next).len() - 1) =~= stmts_view(pre));
            lemma_dedup_concat(a0, block_vars(stmts_view(pre)), stmt_vars(stmt_view(ss@[i as int])));
        }
        match &ss[i] {
            Stmt::Log(_) => {
                proof {
                    assert(block_vars(stmts_view(pre)) + seq![] =~= block_vars(stmts_view(pre)));
                }
            },
            Stmt::For { name, body, .. } => {
                let ghost d = names_view(acc@);
                let mut j: usize = 0;
                let mut seen = false;
                while j < acc.len() && !seen
                    invariant
                        0 <= j <= acc@.len(),
                        d == names_view(acc@),
                        seen ==> d.contains(name@),
                        !seen ==> forall|jj: int| 0 <= jj < j ==> d[jj] != name@,
                    decreases acc@.len() - j + (if seen {
                        0int
                    } else {
                        1int
                    }),
                {
                    if acc[j] == *name {
                        proof {
                            assert(d[j as int] == name@);
                        }
                        seen = true;
                    } else {
                        j = j + 1;
                    }
                }
                if !seen {
                    acc.push(name.clone());
                    proof {
                        assert(names_view(acc@) =~= d.push(name@));
                    }
                }
                proof {
                    let one = seq![name@];
                    assert(one.drop_last() =~= Seq::<Seq<char>>::empty());
                    assert(one.last() == name@);
                    assert(dedup_onto(d, one.drop_last()) == d);
                    if !seen {
                        assert(!d.contains(name@));
                    }
                    assert(dedup_onto(d, one) == names_view(acc@));
                    lemma_dedup_concat(d, seq![name@], block_vars(stmts_view(body@)));
                    assert(decode_utf8(encode_utf8(name@)) == name@);
                }
                collect_vars(body, acc);
                proof {
                    lemma_dedup_concat(
                        a0,
                        block_vars(stmts_view(pre)),
                        seq![name@] + block_vars(stmts_view(body@)),
                    );
                }
            },
        }
        i = i + 1;
    }
    proof {
        assert(ss@.subrange(0, ss@.len() as int) =~= ss@);
    }
}

proof fn lemma_stmt_keys_in(ss: Seq<StmtV>, i: int, t: Seq<(Seq<u8>, int)>)
    requires
        0 <= i < ss.len(),
        keys_in(block_keys(ss), t),
    ensures
        keys_in(stmt_keys(ss[i]), t),
    decreases ss.len(),
{
    let d = ss.subrange(0, ss.len() - 1);
    let a = block_keys(d);
    let b = stmt_keys(ss[ss.len() - 1]);
    assert(block_keys(ss) == a + b);
    if i == ss.len() - 1 {
        assert forall|n: int| 0 <= n < b.len() implies has_key(t, #[trigger] b[n]) by {
            assert((a + b)[a.len() + n] == b[n]);
        }
    } else {
        assert forall|n: int| 0 <= n < a.len() implies has_key(t, #[trigger] a[n]) by {
            assert((a + b)[n] == a[n]);
        }
        lemma_stmt_keys_in(d, i, t);
        assert(d[i] == ss[i]);
    }
}

proof fn lemma_arg_key_in(args: Seq<ExprV>, k: int, t: Seq<(Seq<u8>, int)>)
    requires
        0 <= k < args.len(),
        keys_in(arg_keys(args), t),
        args[k] is Str,
    ensures
        has_key(t, key_of(args[k]->Str_0)),
    decreases args.len(),
{
    let d = args.drop_last();
    let a = arg_keys(d);
    if k == args.len() - 1 {
        assert(arg_keys(args) == a.push(key_of(args[k]->Str_0)));
        assert(arg_keys(args)[a.len() as int] == key_of(args[k]->Str_0));
    } else {
        assert forall|n: int| 0 <= n < a.len() implies has_key(t, #[trigger] a[n]) by {
            assert(arg_keys(args)[n] == a[n]);
        }
        lemma_arg_key_in(d, k, t);
        assert(d[k] == args[k]);
    }
}

/// Appends the instructions that write one argument at the cursor of the JSON array.
fn emit_arg(e: &Expr, t: &Vec<(Vec<u8>, usize)>, out: &mut String)
    requires
        unique_keys(table_view(t@)),
        e@ matches ExprV::Str(w) ==> has_key(table_view(t@), key_of(w)),
    ensures
        final(out)@ == old(out)@ + arg_text(e@, table_view(t@)),
{
    match e {
        Expr::Str(s) => {
            let key = json_quote(s.as_str());
            let off = find_offset(t, key.as_slice());
            let len = key.len();
            out.append(COPY_HEAD);
            push_digits(out, off as u64);
            out.append(CONST_NEXT);
            push_digits(out, len as u64);
            out.append(COPY_TAIL);
            push_digits(out, len as u64);
            out.append(ADVANCE);
        },
        Expr::Var(n) => {
            out.append("    ;; var ");
            out.append(n.as_str());
            out.append(" -> JSON\n    local.get $");
            out.append(n.as_str());
            out.append(FORMAT_CALL);
            proof {
                assert(decode_utf8(encode_utf8(n@)) == n@);
            }
        },
        Expr::Int(v) => {
            out.append("    ;; int ");
            push_i32(out, *v);
            out.append(CONST_NEXT);
            push_i32(out, *v);
            out.append(FORMAT_CALL);
        },
    }
    proof {
        assert(out@ =~= old(out)@ + arg_text(e@, table_view(t@)));
    }
}

/// Appends the instructions of one `log` call: build the JSON array, then call the host.
fn emit_log(args: &Vec<Expr>, t: &Vec<(Vec<u8>, usize)>, out: &mut String)
    requires
        unique_keys(table_view(t@)),
        keys_in(arg_keys(exprs_view(args@)), table_view(t@)),
    ensures
        final(out)@ == old(out)@ + LOG_OPEN@ + args_text(exprs_view(args@), table_view(t@))
            + LOG_CLOSE@,
{
    let ghost tv = table_view(t@);
    let ghost xs = exprs_view(args@);
    out.append(LOG_OPEN);
    let ghost start = out@;
    let mut k: usize = 0;
    proof {
        assert(xs.subrange(0, 0) =~= Seq::<ExprV>::empty());
        assert(out@ =~= start + args_text(xs.subrange(0, 0), tv));
    }
    while k < args.len()
        invariant
            0 <= k <= args@.len(),
            tv == table_view(t@),
            xs == exprs_view(args@),
            unique_keys(tv),
            keys_in(arg_keys(xs), tv),
            out@ == start + args_text(xs.subrange(0, k as int), tv),
        decreases args@.len() - k,
    {
        let ghost before = out@;
        proof {
            let nx = xs.subrange(0, k + 1);
            assert(nx.drop_last() =~= xs.subrange(0, k as int));
        }
        if k > 0 {
            out.append(LOG_COMMA);
        }
        let ghost mid = out@;
        proof {
            if args@[k as int] is Str {
                lemma_arg_key_in(xs, k as int, tv);
            }
        }
        emit_arg(&args[k], t, out);
        proof {
            assert(out@ =~= mid + arg_text(xs[k as int], tv));
            assert(out@ =~= start + args_text(xs.subrange(0, k + 1), tv));
        }
        k = k + 1;
    }
    proof {
        assert(xs.subrange(0, xs.len() as int) =~= xs);
    }
    out.append(LOG_CLOSE);
    proof {
        assert(out@ =~= old(out)@ + LOG_OPEN@ + args_text(xs, tv) + LOG_CLOSE@);
    }
}

/// Appends the instructions of `for name = start to end { body }`: the variable's slot is set
/// to `start`, and the loop leaves when it is greater than `end`, before the body; after the
/// body it adds one and goes back. With `end == i32::MAX`, which no value exceeds, the loop
/// also leaves after the body once the variable equals `end`.
fn emit_for(
    name: &String,
    start: i32,
    end: i32,
    body: &Vec<Stmt>,
    t: &Vec<(Vec<u8>, usize)>,
    out: &mut String,
)
    requires
        unique_keys(table_view(t@)),
        keys_in(block_keys(stmts_view(body@)), table_view(t@)),
    ensures
        final(out)@ == old(out)@ + for_open(name@, start, end) + block_text(
            stmts_view(body@),
            table_view(t@),
        ) + for_close(name@, end),
    decreases body, 1int,
{
    out.append("    ;; for ");
    out.append(name.as_str());
    out.append(" = ");
    push_i32(out, start);
    out.append(" to ");
    push_i32(out, end);
    out.append(CONST_NEXT);
    push_i32(out, start);
    out.append("\n    local.set $");
    out.append(name.as_str());
    out.append("\n    block $exit\n    loop $loop\n    local.get $");
    out.append(name.as_str());
    out.append(CONST_NEXT);
    push_i32(out, end);
    out.append("\n    i32.gt_s\n    br_if $exit\n");
    proof {
        assert(out@ =~= old(out)@ + for_open(name@, start, end));
    }
    emit_stmts(body, t, out);
    let ghost inner = out@;
    if end == 0x7fff_ffff {
        out.append("    local.get $");
        out.append(name.as_str());
        out.append("\n    i32.const 2147483647\n    i32.eq\n    br_if $exit\n");
    }
    out.append("    local.get $");
    out.append(name.as_str());
    out.append("\n    i32.const 1\n    i32.add\n    local.set $");
    out.append(name.as_str());
    out.append("\n    br $loop\n    end\n    end\n");
    proof {
        assert(out@ =~= inner + for_close(name@, end));
    }
}

/// Appends the instructions of the statements, in program order.
fn emit_stmts(ss: &Vec<Stmt>, t: &Vec<(Vec<u8>, usize)>, out: &mut String)
    requires
        unique_keys(table_view(t@)),
        keys_in(block_keys(stmts_view(ss@)), table_view(t@)),
    ensures
        final(out)@ == old(out)@ + block_text(stmts_view(ss@), table_view(t@)),
    decreases ss, 0int,
{
    let ghost tv = table_view(t@);
    let mut i: usize = 0;
    proof {
        assert(stmts_view(ss@.subrange(0, 0)) =~= Seq::<StmtV>::empty());
        assert(out@ =~= old(out)@ + block_text(stmts_view(ss@.subrange(0, 0)), tv));
    }
    while i < ss.len()
        invariant
            0 <= i <= ss@.len(),
            tv == table_view(t@),
            unique_keys(tv),
            keys_in(block_keys(stmts_view(ss@)), tv),
            out@ == old(out)@ + block_text(stmts_view(ss@.subrange(0, i as int)), tv),
        decreases ss@.len() - i,
    {
        let ghost before = out@;
        let ghost pre = ss@.subrange(0, i as int);
        let ghost next = ss@.subrange(0, i + 1);
        proof {
            assert(next.subrange(0, next.len() - 1) =~= pre);
            assert(stmts_view(next).subrange(0, stmts_view(next).len() - 1) =~= stmts_view(pre));
            lemma_stmts_view(ss@);
            lemma_stmt_keys_in(stmts_view(ss@), i as int, tv);
        }
        match &ss[i] {
            Stmt::Log(args) => {
                emit_log(args, t, out);
            },
            Stmt::For { name, start, end, body } => {
                proof {
                    assert(decode_utf8(encode_utf8(name@)) == name@);
                }
                emit_for(name, *start, *end, body, t, out);
            },
        }
        proof {
            assert(out@ =~= before + stmt_text(stmt_view(ss@[i as int]), tv));
            assert(out@ =~= old(out)@ + block_text(stmts_view(next), tv));
        }
        i = i + 1;
    }
    proof {
        assert(ss@.subrange(0, ss@.len() as int) =~= ss@);
    }
}

/// The module text for a program whose data layout fits the machine's addresses.
pub fn generate_wat(prog: &Program) -> (r: String)
    requires
        fits(prog@),
    ensures
        r@ == module_text(prog@),
{
    let mut keys: Vec<Vec<u8>> = Vec::new();
    walk_strings(&prog.stmts, &mut keys);
    proof {
        assert(keys_view(keys@) =~= block_keys(prog@));
    }
    let (table, data) = match intern_strings(&keys) {
        Some(planned) => planned,
        // Not reached: the layout fits.
        None => {
            return String::new();
        },
    };
    let mut vars: Vec<String> = Vec::new();
    proof {
        assert(names_view(vars@) =~= Seq::<Seq<char>>::empty());
    }
    collect_vars(&prog.stmts, &mut vars);
    proof {
        assert(names_view(vars@) =~= dedup_onto(seq![], block_vars(prog@)));
        lemma_layout(block_keys(prog@), 0);
        lemma_layout_has_keys(block_keys(prog@));
    }
    let mut body = String::new();
    emit_stmts(&prog.stmts, &table, &mut body);
    let mut locals = String::new();
    let mut k: usize = 0;
    let ghost vs = names_view(vars@);
    proof {
        assert(vs.subrange(0, 0) =~= Seq::<Seq<char>>::empty());
    }
    while k < vars.len()
        invariant
            0 <= k <= vars@.len(),
            vs == names_view(vars@),
            locals@ == locals_text(vs.subrange(0, k as int)),
        decreases vars@.len() - k,
    {
        let ghost before = locals@;
        proof {
            assert(vs.subrange(0, k + 1).drop_last() =~= vs.subrange(0, k as int));
        }
        locals.append("    (local $");
        locals.append(vars[k].as_str());
        locals.append(" i32)\n");
        proof {
            assert(locals@ =~= before + "    (local $"@ + vs[k as int] + " i32)\n"@);
        }
        k = k + 1;
    }
    proof {
        assert(vs.subrange(0, vs.len() as int) =~= vs);
    }
    let mut wat = String::new();
    wat.append(MODULE_HEAD);
    wat.append(DATA_HEAD);
    wat.append(data.as_str());
    wat.append(FORMAT_ROUTINE);
    wat.append(MAIN_HEAD);
    wat.append(locals.as_str());
    wat.append(body.as_str());
    wat.append(MODULE_TAIL);
    proof {
        assert(wat@ =~= module_text(prog@));
    }
    wat
}

/// The module text for a program, or `None` when its data layout would not fit the
/// machine's addresses.
pub fn try_generate_wat(prog: &Program) -> (r: Option<String>)
    ensures
        match r {
            Some(text) => fits(prog@) && text@ == module_text(prog@),
            None => !fits(prog@),
        },
{
    let mut keys: Vec<Vec<u8>> = Vec::new();
    walk_strings(&prog.stmts, &mut keys);
    proof {
        assert(keys_view(keys@) =~= block_keys(prog@));
    }
    match intern_strings(&keys) {
        Some(_) => Some(generate_wat(prog)),
        None => None,
    }
}

/// Each string literal of a program gets exactly one data segment: the segment table has an
/// entry for the literal's interned form and no second one, and a `log` argument with that
/// text copies from that entry's offset, whichever call site it stands in.
pub proof fn lemma_one_segment_per_text(p: Seq<StmtV>, w1: Seq<u8>, w2: Seq<u8>)
    requires
        block_keys(p).contains(key_of(w1)),
        w1 == w2,
    ensures
        ({
            let t = layout(block_keys(p)).0;
            &&& unique_keys(t)
            &&& exists|i: int|
                0 <= i < t.len() && #[trigger] t[i].0 == key_of(w1) && t[i].1 == offset_of(
                    t,
                    key_of(w1),
                )
            &&& arg_text(ExprV::Str(w1), t) == arg_text(ExprV::Str(w2), t)
        }),
{
    let keys = block_keys(p);
    let t = layout(keys).0;
    lemma_layout(keys, 0);
    lemma_layout_has_keys(keys);
    let n = choose|n: int| 0 <= n < keys.len() && keys[n] == key_of(w1);
    assert(has_key(t, keys[n]));
    let i = choose|i: int| 0 <= i < t.len() && #[trigger] t[i].0 == key_of(w1);
    lemma_offset_at(t, i);
}

/// A model of the loop that `for_open` and `for_close` describe, for a body that leaves
/// the loop variable alone: how many times the body runs when the variable is `v` at the
/// head. The loop leaves if `v > end`; otherwise the body runs, and then the loop leaves if
/// `v` is `i32::MAX` (the tail's extra test, present only when `end` is that bound) or adds
/// one to `v` and goes back.
pub open spec fn runs_from(v: i32, end: i32) -> nat
    decreases i32::MAX - v,
{
    if v > end {
        0
    } else if v == i32::MAX {
        1
    } else {
        1 + runs_from((v + 1) as i32, end)
    }
}

/// In the model above, the number of runs of the body of `for v = start to end`.
pub open spec fn for_runs(start: i32, end: i32) -> nat {
    runs_from(start, end)
}

proof fn lemma_runs_from(v: i32, end: i32)
    requires
        v <= end + 1,
    ensures
        runs_from(v, end) == end - v + 1,
    decreases i32::MAX - v,
{
    if v <= end && v < i32::MAX {
        lemma_runs_from((v + 1) as i32, end);
    }
}

/// In the model of the emitted loop, the body of `for v = start to end` runs
/// `end - start + 1` times, once when `start == end`, and not at all when `start > end`, for
/// every pair of 32-bit bounds.
pub proof fn lemma_for_trip_count(start: i32, end: i32)
    ensures
        for_runs(start, end) == (if start > end {
            0
        } else {
            end - start + 1
        }),
{
    if start <= end {
        lemma_runs_from(start, end);
    }
}

/// The digits of `n` least significant first, as the formatting routine writes them.
pub open spec fn digits_reversed(n: nat) -> Seq<char>
    decreases n,
{
    if n < 10 {
        seq![digit_char(n)]
    } else {
        seq![digit_char(n % 10)] + digits_reversed(n / 10)
    }
}

/// A model of what the formatting routine `FORMAT_ROUTINE` writes for `v`, read from its
/// instructions: `0` for zero; otherwise the
/// digits of the magnitude least significant first, then `-` for a negative value, and the
/// whole span reversed. The magnitude is `0 - v` read as an unsigned 32-bit value, which
/// is `-v` for every negative `v`, the smallest one included.
pub open spec fn routine_text(v: i32) -> Seq<char> {
    if v == 0 {
        seq!['0']
    } else if v < 0 {
        digits_reversed((-v) as nat).push('-').reverse()
    } else {
        digits_reversed(v as nat).reverse()
    }
}

proof fn lemma_digits_reversed(n: nat)
    ensures
        digits_reversed(n).len() == digits_text(n).len(),
        forall|i: int|
            0 <= i < digits_text(n).len() ==> #[trigger] digits_reversed(n)[i] == digits_text(n)[
                digits_text(n).len() - 1 - i
            ],
    decreases n,
{
    if n >= 10 {
        lemma_digits_reversed(n / 10);
        let r = digits_reversed(n);
        let t = digits_text(n);
        let r1 = digits_reversed(n / 10);
        let t1 = digits_text(n / 10);
        assert forall|i: int| 0 <= i < t.len() implies #[trigger] r[i] == t[t.len() - 1 - i] by {
            if i > 0 {
                assert(r[i] == r1[i - 1]);
                assert(t[t.len() - 1 - i] == t1[t1.len() - 1 - (i - 1)]);
            }
        }
    }
}

/// In the model of the formatting routine, the text written for every 32-bit value, the
/// smallest included, is its decimal text; with `lemma_decimal_round_trip`, that text reads
/// back as the value.
pub proof fn lemma_routine_writes_decimal(v: i32)
    ensures
        routine_text(v) == decimal_text(v as int),
{
    if v == 0 {
        assert(digit_char(0) == '0');
        assert(decimal_text(0) =~= seq!['0']);
    } else if v < 0 {
        let n = (-v) as nat;
        lemma_digits_reversed(n);
        let w = digits_reversed(n).push('-');
        let t = digits_text(n);
        assert(w.reverse() =~= seq!['-'] + t) by {
            assert forall|i: int| 0 <= i < w.len() implies #[trigger] w.reverse()[i] == (seq!['-']
                + t)[i] by {
                if i > 0 {
                    assert(w[w.len() - 1 - i] == digits_reversed(n)[t.len() - i]);
                }
            }
        }
    } else {
        let n = v as nat;
        lemma_digits_reversed(n);
        let t = digits_text(n);
        assert(digits_reversed(n).reverse() =~= t);
    }
}

} // verus!
