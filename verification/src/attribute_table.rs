//! The names of the script language: the materials (with their `\`-prefixed
//! exceptions) and the types.
use vstd::prelude::*;
use crate::text::{is_lit, slice};
use crate::variable::{Attribute, AttrView};

verus! {

pub open spec fn upper_letters() -> Seq<char> {
    "ABCDEFGHIJKLMNOPQRSTUVWXYZ"@
}

pub open spec fn lower_letters() -> Seq<char> {
    "abcdefghijklmnopqrstuvwxyz"@
}

pub open spec fn symbols() -> Seq<char> {
    "~`!@#$%^&*()_-+=\\|[]{}:;'\"/?.>,<"@
}

pub open spec fn all_characters() -> Seq<char> {
    "ABCDEFGHIJKLMNOPQRSTUVWXYZabcdefghijklmnopqrstuvwxyz~`!@#$%^&*()_-+=\\|[]{}:;'\"/?.>,<"@
}

/// The material that the name `n` stands for.
pub open spec fn material_of(n: Seq<char>) -> Option<AttrView> {
    if n == "BEGIN"@ {
        Some(AttrView::Tag("BEGIN"@))
    } else if n == "END"@ {
        Some(AttrView::Tag("END"@))
    } else if n == "@IntRange"@ {
        Some(AttrView::IntRange(0, 0))
    } else if n == "@FloatRange"@ {
        Some(AttrView::FloatRange("0"@, "0"@))
    } else if n == "@StrSet"@ {
        Some(AttrView::StrSet(""@))
    } else if n == "UPC"@ {
        Some(AttrView::StrSet(upper_letters()))
    } else if n == "LOC"@ {
        Some(AttrView::StrSet(lower_letters()))
    } else if n == "SML"@ {
        Some(AttrView::StrSet(symbols()))
    } else if n == "ALC"@ {
        Some(AttrView::StrSet(all_characters()))
    } else if n == "SPACE"@ {
        Some(AttrView::StrSet(" "@))
    } else if n == "BSL"@ {
        Some(AttrView::StrSet("\\"@))
    } else if n == "LSB"@ {
        Some(AttrView::StrSet("("@))
    } else if n == "RSB"@ {
        Some(AttrView::StrSet(")"@))
    } else if n == "SEMI"@ {
        Some(AttrView::StrSet(";"@))
    } else if n == "DOT"@ {
        Some(AttrView::StrSet("."@))
    } else if n == "COL"@ {
        Some(AttrView::StrSet(":"@))
    } else {
        None
    }
}

/// The type that the name `n` stands for; `=` is the type that is worked out
/// from the material.
pub open spec fn type_of(n: Seq<char>) -> Option<AttrView> {
    if n == "int"@ {
        Some(AttrView::Type("int"@))
    } else if n == "float"@ {
        Some(AttrView::Type("float"@))
    } else if n == "string"@ {
        Some(AttrView::Type("string"@))
    } else if n == "="@ {
        Some(AttrView::Type("ANY"@))
    } else {
        None
    }
}

/// The attribute that the name `n` stands for: a material, a material with
/// `\` in front (its exception), or a type.
pub open spec fn attribute_of(n: Seq<char>) -> Option<AttrView> {
    match material_of(n) {
        Some(m) => Some(m),
        None => if n.len() > 0 && n[0] == '\\' && material_of(n.drop_first()) is Some {
            Some(AttrView::Except(Box::new(material_of(n.drop_first())->0)))
        } else {
            type_of(n)
        },
    }
}

fn str_set(s: &str) -> (r: Attribute)
    ensures
        r@ == AttrView::StrSet(s@),
{
    Attribute::StrSet(String::from_str(s))
}

fn material(n: &Vec<char>) -> (r: Option<Attribute>)
    ensures
        match r {
            Some(a) => material_of(n@) == Some(a@),
            None => material_of(n@) is None,
        },
{
    if is_lit(n, "BEGIN") {
        Some(Attribute::Tag(String::from_str("BEGIN")))
    } else if is_lit(n, "END") {
        Some(Attribute::Tag(String::from_str("END")))
    } else if is_lit(n, "@IntRange") {
        Some(Attribute::IntRange((0, 0)))
    } else if is_lit(n, "@FloatRange") {
        Some(Attribute::FloatRange((String::from_str("0"), String::from_str("0"))))
    } else if is_lit(n, "@StrSet") {
        Some(str_set(""))
    } else if is_lit(n, "UPC") {
        Some(str_set("ABCDEFGHIJKLMNOPQRSTUVWXYZ"))
    } else if is_lit(n, "LOC") {
        Some(str_set("abcdefghijklmnopqrstuvwxyz"))
    } else if is_lit(n, "SML") {
        Some(str_set("~`!@#$%^&*()_-+=\\|[]{}:;'\"/?.>,<"))
    } else if is_lit(n, "ALC") {
        Some(
            str_set(
                "ABCDEFGHIJKLMNOPQRSTUVWXYZabcdefghijklmnopqrstuvwxyz~`!@#$%^&*()_-+=\\|[]{}:;'\"/?.>,<",
            ),
        )
    } else if is_lit(n, "SPACE") {
        Some(str_set(" "))
    } else if is_lit(n, "BSL") {
        Some(str_set("\\"))
    } else if is_lit(n, "LSB") {
        Some(str_set("("))
    } else if is_lit(n, "RSB") {
        Some(str_set(")"))
    } else if is_lit(n, "SEMI") {
        Some(str_set(";"))
    } else if is_lit(n, "DOT") {
        Some(str_set("."))
    } else if is_lit(n, "COL") {
        Some(str_set(":"))
    } else {
        None
    }
}

fn type_attr(n: &Vec<char>) -> (r: Option<Attribute>)
    ensures
        match r {
            Some(a) => type_of(n@) == Some(a@),
            None => type_of(n@) is None,
        },
{
    if is_lit(n, "int") {
        Some(Attribute::Type(String::from_str("int")))
    } else if is_lit(n, "float") {
        Some(Attribute::Type(String::from_str("float")))
    } else if is_lit(n, "string") {
        Some(Attribute::Type(String::from_str("string")))
    } else if is_lit(n, "=") {
        Some(Attribute::Type(String::from_str("ANY")))
    } else {
        None
    }
}

/// The attribute that the name `n` stands for, if any.
pub fn lookup_attribute(n: &Vec<char>) -> (r: Option<Attribute>)
    ensures
        match r {
            Some(a) => attribute_of(n@) == Some(a@),
            None => attribute_of(n@) is None,
        },
{
    match material(n) {
        Some(m) => Some(m),
        None => {
            if n.len() > 0 && n[0] == '\\' {
                let rest = slice(n, 1, n.len());
                assert(rest@ =~= n@.drop_first());
                match material(&rest) {
                    Some(m) => {
                        return Some(Attribute::Except(Box::new(m)));
                    },
                    None => {},
                }
            }
            type_attr(n)
        },
    }
}

/// The macros of single characters stand for the characters that the
/// script syntax reserves or names: `SPACE` for a space, `BSL` for `\`,
/// `LSB` and `RSB` for `(` and `)`, `SEMI` for `;`, `DOT` for `.` and `COL`
/// for `:`.
pub proof fn law_char_macros()
    ensures
        attribute_of(seq!['S', 'P', 'A', 'C', 'E']) == Some(AttrView::StrSet(seq![' '])),
        attribute_of(seq!['B', 'S', 'L']) == Some(AttrView::StrSet(seq!['\\'])),
        attribute_of(seq!['L', 'S', 'B']) == Some(AttrView::StrSet(seq!['('])),
        attribute_of(seq!['R', 'S', 'B']) == Some(AttrView::StrSet(seq![')'])),
        attribute_of(seq!['S', 'E', 'M', 'I']) == Some(AttrView::StrSet(seq![';'])),
        attribute_of(seq!['D', 'O', 'T']) == Some(AttrView::StrSet(seq!['.'])),
        attribute_of(seq!['C', 'O', 'L']) == Some(AttrView::StrSet(seq![':'])),
{
    reveal_names();
}

/// `UPC` stands for the 26 upper case letters and `LOC` for the 26 lower
/// case letters, each in alphabetical order; `ALC` stands for all of `UPC`,
/// `LOC` and `SML`, in that order; `SML` holds no letter and no digit.
pub proof fn law_set_macros()
    ensures
        attribute_of(seq!['U', 'P', 'C']) matches Some(AttrView::StrSet(u)) && u.len() == 26
            && forall|i: int| 0 <= i < 26 ==> #[trigger] u[i] as int == 'A' as int + i,
        attribute_of(seq!['L', 'O', 'C']) matches Some(AttrView::StrSet(l)) && l.len() == 26
            && forall|i: int| 0 <= i < 26 ==> #[trigger] l[i] as int == 'a' as int + i,
        attribute_of(seq!['A', 'L', 'C']) matches Some(AttrView::StrSet(a)) && attribute_of(
            seq!['U', 'P', 'C'],
        ) matches Some(AttrView::StrSet(u)) && attribute_of(seq!['L', 'O', 'C']) matches Some(
            AttrView::StrSet(l),
        ) && attribute_of(seq!['S', 'M', 'L']) matches Some(AttrView::StrSet(m)) && a == u + l
            + m,
        attribute_of(seq!['S', 'M', 'L']) matches Some(AttrView::StrSet(m)) && forall|i: int|
            0 <= i < m.len() ==> !('a' <= #[trigger] m[i] <= 'z' || 'A' <= m[i] <= 'Z' || '0'
                <= m[i] <= '9'),
{
    reveal_names();
    reveal_strlit("ABCDEFGHIJKLMNOPQRSTUVWXYZ");
    reveal_strlit("abcdefghijklmnopqrstuvwxyz");
    reveal_strlit("~`!@#$%^&*()_-+=\\|[]{}:;'\"/?.>,<");
    reveal_strlit(
        "ABCDEFGHIJKLMNOPQRSTUVWXYZabcdefghijklmnopqrstuvwxyz~`!@#$%^&*()_-+=\\|[]{}:;'\"/?.>,<",
    );
    assert(all_characters() =~= upper_letters() + lower_letters() + symbols());
}

proof fn reveal_names()
    ensures
        "BEGIN"@ == seq!['B', 'E', 'G', 'I', 'N'],
        "END"@ == seq!['E', 'N', 'D'],
        "@IntRange"@ == seq!['@', 'I', 'n', 't', 'R', 'a', 'n', 'g', 'e'],
        "@FloatRange"@ == seq!['@', 'F', 'l', 'o', 'a', 't', 'R', 'a', 'n', 'g', 'e'],
        "@StrSet"@ == seq!['@', 'S', 't', 'r', 'S', 'e', 't'],
        "UPC"@ == seq!['U', 'P', 'C'],
        "LOC"@ == seq!['L', 'O', 'C'],
        "SML"@ == seq!['S', 'M', 'L'],
        "ALC"@ == seq!['A', 'L', 'C'],
        "SPACE"@ == seq!['S', 'P', 'A', 'C', 'E'],
        "BSL"@ == seq!['B', 'S', 'L'],
        "LSB"@ == seq!['L', 'S', 'B'],
        "RSB"@ == seq!['R', 'S', 'B'],
        "SEMI"@ == seq!['S', 'E', 'M', 'I'],
        "DOT"@ == seq!['D', 'O', 'T'],
        "COL"@ == seq!['C', 'O', 'L'],
        " "@ == seq![' '],
        "\\"@ == seq!['\\'],
        "("@ == seq!['('],
        ")"@ == seq![')'],
        ";"@ == seq![';'],
        "."@ == seq!['.'],
        ":"@ == seq![':'],
{
    reveal_strlit("BEGIN");
    reveal_strlit("END");
    reveal_strlit("@IntRange");
    reveal_strlit("@FloatRange");
    reveal_strlit("@StrSet");
    reveal_strlit("UPC");
    reveal_strlit("LOC");
    reveal_strlit("SML");
    reveal_strlit("ALC");
    reveal_strlit("SPACE");
    reveal_strlit("BSL");
    reveal_strlit("LSB");
    reveal_strlit("RSB");
    reveal_strlit("SEMI");
    reveal_strlit("DOT");
    reveal_strlit("COL");
    reveal_strlit(" ");
    reveal_strlit("\\");
    reveal_strlit("(");
    reveal_strlit(")");
    reveal_strlit(";");
    reveal_strlit(".");
    reveal_strlit(":");
    assert("BEGIN"@ =~= seq!['B', 'E', 'G', 'I', 'N']);
    assert("END"@ =~= seq!['E', 'N', 'D']);
    assert("@IntRange"@ =~= seq!['@', 'I', 'n', 't', 'R', 'a', 'n', 'g', 'e']);
    assert("@FloatRange"@ =~= seq!['@', 'F', 'l', 'o', 'a', 't', 'R', 'a', 'n', 'g', 'e']);
    assert("@StrSet"@ =~= seq!['@', 'S', 't', 'r', 'S', 'e', 't']);
    assert("UPC"@ =~= seq!['U', 'P', 'C']);
    assert("LOC"@ =~= seq!['L', 'O', 'C']);
    assert("SML"@ =~= seq!['S', 'M', 'L']);
    assert("ALC"@ =~= seq!['A', 'L', 'C']);
    assert("SPACE"@ =~= seq!['S', 'P', 'A', 'C', 'E']);
    assert("BSL"@ =~= seq!['B', 'S', 'L']);
    assert("LSB"@ =~= seq!['L', 'S', 'B']);
    assert("RSB"@ =~= seq!['R', 'S', 'B']);
    assert("SEMI"@ =~= seq!['S', 'E', 'M', 'I']);
    assert("DOT"@ =~= seq!['D', 'O', 'T']);
    assert("COL"@ =~= seq!['C', 'O', 'L']);
    assert(" "@ =~= seq![' ']);
    assert("\\"@ =~= seq!['\\']);
    assert("("@ =~= seq!['(']);
    assert(")"@ =~= seq![')']);
    assert(";"@ =~= seq![';']);
    assert("."@ =~= seq!['.']);
    assert(":"@ =~= seq![':']);
}

} // verus!
