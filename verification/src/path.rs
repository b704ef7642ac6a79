//! The names of the files that the storage backends write, and the text
//! under which the page cache files a page.

use vstd::prelude::*;
use vstd::string::*;

verus! {

/// The character for the digit `d`.
pub open spec fn digit_char(d: int) -> char {
    if d == 0 {
        '0'
    } else if d == 1 {
        '1'
    } else if d == 2 {
        '2'
    } else if d == 3 {
        '3'
    } else if d == 4 {
        '4'
    } else if d == 5 {
        '5'
    } else if d == 6 {
        '6'
    } else if d == 7 {
        '7'
    } else if d == 8 {
        '8'
    } else {
        '9'
    }
}

/// `n` written in decimal, without leading zeros.
pub open spec fn decimal(n: nat) -> Seq<char>
    decreases n,
{
    if n < 10 {
        seq![digit_char(n as int)]
    } else {
        decimal(n / 10).push(digit_char((n % 10) as int))
    }
}

/// The directory of the database `db`, as the prefix of its files' paths.
pub open spec fn db_prefix_text(db: Seq<char>) -> Seq<char> {
    "./"@ + db + "/"@
}

/// The path of run number `index` of the database `db`.
pub open spec fn sst_path_text(db: Seq<char>, index: nat) -> Seq<char> {
    db_prefix_text(db) + "output_"@ + decimal(index) + ".bin"@
}

/// The path of the leaf file of the run `run` at level `level`.
pub open spec fn leaf_path_text(db: Seq<char>, level: nat, run: nat) -> Seq<char> {
    db + "/output_leaf_"@ + decimal(level) + "_"@ + decimal(run) + ".bin"@
}

/// The path of the index file of the run `run` at level `level`.
pub open spec fn internal_path_text(db: Seq<char>, level: nat, run: nat) -> Seq<char> {
    db + "/output_internal_"@ + decimal(level) + "_"@ + decimal(run) + ".bin"@
}

/// The text that stands for page `offset` of `file` in the page cache.
pub open spec fn page_key_text(file: Seq<char>, offset: nat) -> Seq<char> {
    file + " "@ + decimal(offset)
}

/// The one-character string for the digit `d`.
fn digit_str(d: u64) -> (s: &'static str)
    requires
        d < 10,
    ensures
        s@ == seq![digit_char(d as int)],
{
    proof {
        reveal_strlit("0");
        reveal_strlit("1");
        reveal_strlit("2");
        reveal_strlit("3");
        reveal_strlit("4");
        reveal_strlit("5");
        reveal_strlit("6");
        reveal_strlit("7");
        reveal_strlit("8");
        reveal_strlit("9");
    }
    let s: &'static str = if d == 0 {
        "0"
    } else if d == 1 {
        "1"
    } else if d == 2 {
        "2"
    } else if d == 3 {
        "3"
    } else if d == 4 {
        "4"
    } else if d == 5 {
        "5"
    } else if d == 6 {
        "6"
    } else if d == 7 {
        "7"
    } else if d == 8 {
        "8"
    } else {
        "9"
    };
    assert(s@ =~= seq![digit_char(d as int)]);
    s
}

/// Appends `n` in decimal to `text`.
pub fn push_decimal(text: &mut String, n: u64)
    ensures
        final(text)@ == old(text)@ + decimal(n as nat),
    decreases n,
{
    if n >= 10 {
        push_decimal(text, n / 10);
    }
    text.append(digit_str(n % 10));
    assert(text@ =~= old(text)@ + decimal(n as nat));
}

/// The directory of the database `db_name`, as the prefix of its files' paths.
pub fn db_prefix(db_name: &str) -> (prefix: String)
    ensures
        prefix@ == db_prefix_text(db_name@),
{
    let mut prefix: String = String::from_str("./");
    prefix.append(db_name);
    prefix.append("/");
    prefix
}

/// The path of run number `index` of the database `db_name`.
pub fn sst_path(db_name: &str, index: usize) -> (path: String)
    ensures
        path@ == sst_path_text(db_name@, index as nat),
{
    let mut path: String = db_prefix(db_name);
    path.append("output_");
    push_decimal(&mut path, index as u64);
    path.append(".bin");
    path
}

/// The path of the leaf file of the run `run` at level `level`.
pub fn leaf_path(db_name: &str, level: u32, run: u32) -> (path: String)
    ensures
        path@ == leaf_path_text(db_name@, level as nat, run as nat),
{
    let mut path: String = String::from_str(db_name);
    path.append("/output_leaf_");
    push_decimal(&mut path, level as u64);
    path.append("_");
    push_decimal(&mut path, run as u64);
    path.append(".bin");
    path
}

/// The path of the index file of the run `run` at level `level`.
pub fn internal_path(db_name: &str, level: u32, run: u32) -> (path: String)
    ensures
        path@ == internal_path_text(db_name@, level as nat, run as nat),
{
    let mut path: String = String::from_str(db_name);
    path.append("/output_internal_");
    push_decimal(&mut path, level as u64);
    path.append("_");
    push_decimal(&mut path, run as u64);
    path.append(".bin");
    path
}

/// The text that stands for page `offset` of `file` in the page cache.
pub fn page_key(file: &str, offset: usize) -> (text: String)
    ensures
        text@ == page_key_text(file@, offset as nat),
{
    let mut text: String = String::from_str(file);
    text.append(" ");
    push_decimal(&mut text, offset as u64);
    text
}


/// The character is one of the ten digits.
pub open spec fn is_digit(c: char) -> bool {
    exists|d: int| 0 <= d < 10 && #[trigger] digit_char(d) == c
}

/// A number in decimal has at least one character, and only digits.
pub proof fn lemma_decimal_digits(n: nat)
    ensures
        decimal(n).len() >= 1,
        n >= 10 ==> decimal(n).len() >= 2,
        forall|i: int| 0 <= i < decimal(n).len() ==> is_digit(#[trigger] decimal(n)[i]),
    decreases n,
{
    if n < 10 {
        assert(digit_char(n as int) == decimal(n)[0]);
    } else {
        lemma_decimal_digits(n / 10);
        let front = decimal(n / 10);
        assert forall|i: int| 0 <= i < decimal(n).len() implies is_digit(
            #[trigger] decimal(n)[i],
        ) by {
            if i < front.len() {
                assert(decimal(n)[i] == front[i]);
            } else {
                assert(digit_char((n % 10) as int) == decimal(n)[i]);
            }
        }
    }
}

/// Different numbers are written differently.
pub proof fn lemma_decimal_differs(a: nat, b: nat)
    requires
        decimal(a) == decimal(b),
    ensures
        a == b,
    decreases a,
{
    lemma_decimal_digits(a);
    lemma_decimal_digits(b);
    if a < 10 && b < 10 {
        assert(decimal(a)[0] == digit_char(a as int));
        assert(decimal(b)[0] == digit_char(b as int));
    } else if a >= 10 && b >= 10 {
        let fa = decimal(a / 10);
        let fb = decimal(b / 10);
        assert(decimal(a).last() == digit_char((a % 10) as int));
        assert(decimal(b).last() == digit_char((b % 10) as int));
        assert(decimal(a).drop_last() =~= fa);
        assert(decimal(b).drop_last() =~= fb);
        lemma_decimal_differs(a / 10, b / 10);
    }
}

/// Texts that are equal after equal beginnings and before equal ends are
/// equal in the middle.
pub proof fn lemma_middle(head: Seq<char>, one: Seq<char>, other: Seq<char>, tail: Seq<char>)
    requires
        head + one + tail == head + other + tail,
    ensures
        one == other,
{
    let a = head + one + tail;
    let b = head + other + tail;
    assert(a.len() == b.len());
    assert(one.len() == other.len());
    assert forall|i: int| 0 <= i < one.len() implies one[i] == other[i] by {
        assert(a[head.len() + i] == one[i]);
        assert(b[head.len() + i] == other[i]);
    }
    assert(one =~= other);
}

/// The runs of a database have different paths, each under the directory
/// of the database.
pub proof fn lemma_sst_paths(db: Seq<char>, i: nat, j: nat)
    ensures
        sst_path_text(db, i) == sst_path_text(db, j) ==> i == j,
        sst_path_text(db, i).len() >= db_prefix_text(db).len(),
        sst_path_text(db, i).subrange(0, db_prefix_text(db).len() as int) == db_prefix_text(db),
{
    let head = db_prefix_text(db) + "output_"@;
    let tail = ".bin"@;
    assert(sst_path_text(db, i) =~= head + decimal(i) + tail);
    assert(sst_path_text(db, j) =~= head + decimal(j) + tail);
    if sst_path_text(db, i) == sst_path_text(db, j) {
        lemma_middle(head, decimal(i), decimal(j), tail);
        lemma_decimal_differs(i, j);
    }
    assert(sst_path_text(db, i).subrange(0, db_prefix_text(db).len() as int) =~= db_prefix_text(
        db,
    ));
}


/// Two texts that begin with a number in decimal and go on with an
/// underscore begin with the same number where they are equal.
proof fn lemma_number_then_rest(a: nat, b: nat, rest_a: Seq<char>, rest_b: Seq<char>)
    requires
        decimal(a) + "_"@ + rest_a == decimal(b) + "_"@ + rest_b,
    ensures
        a == b,
        rest_a == rest_b,
{
    reveal_strlit("_");
    lemma_decimal_digits(a);
    lemma_decimal_digits(b);
    let da = decimal(a);
    let db = decimal(b);
    let ta = da + "_"@ + rest_a;
    let tb = db + "_"@ + rest_b;
    assert("_"@.len() == 1 && "_"@[0] == '_');
    assert(ta[da.len() as int] == '_');
    assert(tb[db.len() as int] == '_');
    assert(!is_digit('_')) by {
        if is_digit('_') {
            let d = choose|d: int| 0 <= d < 10 && #[trigger] digit_char(d) == '_';
            assert(digit_char(d) == '_');
        }
    }
    if da.len() < db.len() {
        assert(tb[da.len() as int] == db[da.len() as int]);
        assert(is_digit(db[da.len() as int]));
    }
    if db.len() < da.len() {
        assert(ta[db.len() as int] == da[db.len() as int]);
        assert(is_digit(da[db.len() as int]));
    }
    assert(da.len() == db.len());
    assert forall|i: int| 0 <= i < da.len() implies da[i] == db[i] by {
        assert(ta[i] == da[i]);
        assert(tb[i] == db[i]);
    }
    assert(da =~= db);
    lemma_decimal_differs(a, b);
    assert(ta.len() == tb.len());
    assert forall|i: int| 0 <= i < rest_a.len() implies rest_a[i] == rest_b[i] by {
        assert(ta[da.len() + 1 + i] == rest_a[i]);
        assert(tb[db.len() + 1 + i] == rest_b[i]);
    }
    assert(rest_a =~= rest_b);
}

/// Texts that are equal after equal beginnings are equal from there on.
pub proof fn lemma_after_head(head: Seq<char>, one: Seq<char>, other: Seq<char>)
    requires
        head + one == head + other,
    ensures
        one == other,
{
    assert(head + one + Seq::<char>::empty() =~= head + one);
    assert(head + other + Seq::<char>::empty() =~= head + other);
    lemma_middle(head, one, other, Seq::empty());
}

/// The files of a merge tree have different paths: a leaf file and an index
/// file never share one, and two files of one kind share one at the same
/// level and run only.
pub proof fn lemma_lsm_paths(db: Seq<char>, level: nat, run: nat, level2: nat, run2: nat)
    ensures
        leaf_path_text(db, level, run) == leaf_path_text(db, level2, run2) ==> level == level2
            && run == run2,
        internal_path_text(db, level, run) == internal_path_text(db, level2, run2) ==> level
            == level2 && run == run2,
        leaf_path_text(db, level, run) != internal_path_text(db, level2, run2),
{
    reveal_strlit("/output_leaf_");
    reveal_strlit("/output_internal_");
    let tail = ".bin"@;
    let leaf_head = db + "/output_leaf_"@;
    let index_head = db + "/output_internal_"@;
    let a = decimal(level) + "_"@ + (decimal(run) + tail);
    let b = decimal(level2) + "_"@ + (decimal(run2) + tail);
    assert(leaf_path_text(db, level, run) =~= leaf_head + a);
    assert(leaf_path_text(db, level2, run2) =~= leaf_head + b);
    assert(internal_path_text(db, level, run) =~= index_head + a);
    assert(internal_path_text(db, level2, run2) =~= index_head + b);
    if leaf_path_text(db, level, run) == leaf_path_text(db, level2, run2) {
        lemma_after_head(leaf_head, a, b);
        lemma_number_then_rest(level, level2, decimal(run) + tail, decimal(run2) + tail);
        assert(Seq::<char>::empty() + decimal(run) + tail =~= decimal(run) + tail);
        assert(Seq::<char>::empty() + decimal(run2) + tail =~= decimal(run2) + tail);
        lemma_middle(Seq::empty(), decimal(run), decimal(run2), tail);
        lemma_decimal_differs(run, run2);
    }
    if internal_path_text(db, level, run) == internal_path_text(db, level2, run2) {
        lemma_after_head(index_head, a, b);
        lemma_number_then_rest(level, level2, decimal(run) + tail, decimal(run2) + tail);
        assert(Seq::<char>::empty() + decimal(run) + tail =~= decimal(run) + tail);
        assert(Seq::<char>::empty() + decimal(run2) + tail =~= decimal(run2) + tail);
        lemma_middle(Seq::empty(), decimal(run), decimal(run2), tail);
        lemma_decimal_differs(run, run2);
    }
    lemma_decimal_digits(level);
    lemma_decimal_digits(level2);
    let at = db.len() as int + 8;
    assert((leaf_head + a)[at] == 'l');
    assert((index_head + b)[at] == 'i');
}

} // verus!
