//! The number that the digits of the limit spell, taken sixteen digits at
//! a time from the left.

use vstd::arithmetic::power::pow;
use vstd::prelude::*;
use crate::magnitude::{finite_limit, lemma_value_concat};
use crate::number::{digits_value, FINITE_LIMIT};

verus! {

/// What the digits `head` and sixteen more, `chunk`, spell.
proof fn lemma_sixteen_more(head: Seq<char>, chunk: Seq<char>)
    requires
        chunk.len() == 16,
    ensures
        digits_value(head + chunk) == digits_value(head) * 10_000_000_000_000_000 + digits_value(
            chunk,
        ),
{
    assert(pow(10, 16) == 10_000_000_000_000_000int) by {
        reveal_with_fuel(pow, 17);
    }
    lemma_value_concat(head, chunk);
}

/// What the first digits of the limit spell.
proof fn lemma_first_digits()
    ensures
        "17976"@.len() == 5,
        digits_value("17976"@) == 17976int,
{
    reveal_strlit("17976");
    reveal_with_fuel(digits_value, 6);
}

/// What the second digits of the limit spell.
proof fn lemma_second_digits()
    ensures
        "9313486231580793"@.len() == 16,
        digits_value("9313486231580793"@) == 9313486231580793int,
{
    reveal_strlit("9313486231580793");
    reveal_with_fuel(digits_value, 17);
}

/// What the third digits of the limit spell.
proof fn lemma_third_digits()
    ensures
        "7289714053034150"@.len() == 16,
        digits_value("7289714053034150"@) == 7289714053034150int,
{
    reveal_strlit("7289714053034150");
    reveal_with_fuel(digits_value, 17);
}

/// What the fourth digits of the limit spell.
proof fn lemma_fourth_digits()
    ensures
        "7993413271003782"@.len() == 16,
        digits_value("7993413271003782"@) == 7993413271003782int,
{
    reveal_strlit("7993413271003782");
    reveal_with_fuel(digits_value, 17);
}

/// What the fifth digits of the limit spell.
proof fn lemma_fifth_digits()
    ensures
        "6936173778980444"@.len() == 16,
        digits_value("6936173778980444"@) == 6936173778980444int,
{
    reveal_strlit("6936173778980444");
    reveal_with_fuel(digits_value, 17);
}

/// What the sixth digits of the limit spell.
proof fn lemma_sixth_digits()
    ensures
        "9682927647509466"@.len() == 16,
        digits_value("9682927647509466"@) == 9682927647509466int,
{
    reveal_strlit("9682927647509466");
    reveal_with_fuel(digits_value, 17);
}

/// What the seventh digits of the limit spell.
proof fn lemma_seventh_digits()
    ensures
        "4901797758720709"@.len() == 16,
        digits_value("4901797758720709"@) == 4901797758720709int,
{
    reveal_strlit("4901797758720709");
    reveal_with_fuel(digits_value, 17);
}

/// What the eighth digits of the limit spell.
proof fn lemma_eighth_digits()
    ensures
        "6330286416692887"@.len() == 16,
        digits_value("6330286416692887"@) == 6330286416692887int,
{
    reveal_strlit("6330286416692887");
    reveal_with_fuel(digits_value, 17);
}

/// What the ninth digits of the limit spell.
proof fn lemma_ninth_digits()
    ensures
        "9109465555478519"@.len() == 16,
        digits_value("9109465555478519"@) == 9109465555478519int,
{
    reveal_strlit("9109465555478519");
    reveal_with_fuel(digits_value, 17);
}

/// What the tenth digits of the limit spell.
proof fn lemma_tenth_digits()
    ensures
        "4040263065748867"@.len() == 16,
        digits_value("4040263065748867"@) == 4040263065748867int,
{
    reveal_strlit("4040263065748867");
    reveal_with_fuel(digits_value, 17);
}

/// What the eleventh digits of the limit spell.
proof fn lemma_eleventh_digits()
    ensures
        "1505820681908902"@.len() == 16,
        digits_value("1505820681908902"@) == 1505820681908902int,
{
    reveal_strlit("1505820681908902");
    reveal_with_fuel(digits_value, 17);
}

/// What the twelfth digits of the limit spell.
proof fn lemma_twelfth_digits()
    ensures
        "0007083836762738"@.len() == 16,
        digits_value("0007083836762738"@) == 7083836762738int,
{
    reveal_strlit("0007083836762738");
    reveal_with_fuel(digits_value, 17);
}

/// What the thirteenth digits of the limit spell.
proof fn lemma_thirteenth_digits()
    ensures
        "5484581771153176"@.len() == 16,
        digits_value("5484581771153176"@) == 5484581771153176int,
{
    reveal_strlit("5484581771153176");
    reveal_with_fuel(digits_value, 17);
}

/// What the fourteenth digits of the limit spell.
proof fn lemma_fourteenth_digits()
    ensures
        "4475730270069855"@.len() == 16,
        digits_value("4475730270069855"@) == 4475730270069855int,
{
    reveal_strlit("4475730270069855");
    reveal_with_fuel(digits_value, 17);
}

/// What the fifteenth digits of the limit spell.
proof fn lemma_fifteenth_digits()
    ensures
        "5713669596228429"@.len() == 16,
        digits_value("5713669596228429"@) == 5713669596228429int,
{
    reveal_strlit("5713669596228429");
    reveal_with_fuel(digits_value, 17);
}

/// What the sixteenth digits of the limit spell.
proof fn lemma_sixteenth_digits()
    ensures
        "1481986083493647"@.len() == 16,
        digits_value("1481986083493647"@) == 1481986083493647int,
{
    reveal_strlit("1481986083493647");
    reveal_with_fuel(digits_value, 17);
}

/// What the seventeenth digits of the limit spell.
proof fn lemma_seventeenth_digits()
    ensures
        "5292719074168444"@.len() == 16,
        digits_value("5292719074168444"@) == 5292719074168444int,
{
    reveal_strlit("5292719074168444");
    reveal_with_fuel(digits_value, 17);
}

/// What the eighteenth digits of the limit spell.
proof fn lemma_eighteenth_digits()
    ensures
        "3655107043427115"@.len() == 16,
        digits_value("3655107043427115"@) == 3655107043427115int,
{
    reveal_strlit("3655107043427115");
    reveal_with_fuel(digits_value, 17);
}

/// What the nineteenth digits of the limit spell.
proof fn lemma_nineteenth_digits()
    ensures
        "5969950809304288"@.len() == 16,
        digits_value("5969950809304288"@) == 5969950809304288int,
{
    reveal_strlit("5969950809304288");
    reveal_with_fuel(digits_value, 17);
}

/// What the twentieth digits of the limit spell.
proof fn lemma_twentieth_digits()
    ensures
        "0177904174497792"@.len() == 16,
        digits_value("0177904174497792"@) == 177904174497792int,
{
    reveal_strlit("0177904174497792");
    reveal_with_fuel(digits_value, 17);
}

/// The limit is 2^1024 - 2^970: halfway between the largest finite 64-bit
/// binary float, 2^1024 - 2^971, and 2^1024.
pub proof fn lemma_finite_limit()
    ensures
        finite_limit()
            == 0x10000000000000000000000000000000000000000000000000000000000000000000000000000000000000000000000000000000000000000000000000000000000000000000000000000000000000000000000000000000000000000000000000000000000000000000000000000000000000000000000000000000000000000int
            - 0x400000000000000000000000000000000000000000000000000000000000000000000000000000000000000000000000000000000000000000000000000000000000000000000000000000000000000000000000000000000000000000000000000000000000000000000000000000000000000000000000000int,
{
    lemma_first_digits();
    lemma_second_digits();
    lemma_third_digits();
    lemma_fourth_digits();
    lemma_fifth_digits();
    lemma_sixth_digits();
    lemma_seventh_digits();
    lemma_eighth_digits();
    lemma_ninth_digits();
    lemma_tenth_digits();
    lemma_eleventh_digits();
    lemma_twelfth_digits();
    lemma_thirteenth_digits();
    lemma_fourteenth_digits();
    lemma_fifteenth_digits();
    lemma_sixteenth_digits();
    lemma_seventeenth_digits();
    lemma_eighteenth_digits();
    lemma_nineteenth_digits();
    lemma_twentieth_digits();
    let part_0 = "17976"@;
    let part_1 = part_0 + "9313486231580793"@;
    lemma_sixteen_more(part_0, "9313486231580793"@);
    assert(digits_value(part_1) == 179769313486231580793int);
    let part_2 = part_1 + "7289714053034150"@;
    lemma_sixteen_more(part_1, "7289714053034150"@);
    assert(digits_value(part_2) == 1797693134862315807937289714053034150int);
    let part_3 = part_2 + "7993413271003782"@;
    lemma_sixteen_more(part_2, "7993413271003782"@);
    assert(digits_value(part_3) == 17976931348623158079372897140530341507993413271003782int);
    let part_4 = part_3 + "6936173778980444"@;
    lemma_sixteen_more(part_3, "6936173778980444"@);
    assert(digits_value(part_4) == 179769313486231580793728971405303415079934132710037826936173778980444int);
    let part_5 = part_4 + "9682927647509466"@;
    lemma_sixteen_more(part_4, "9682927647509466"@);
    assert(digits_value(part_5) == 1797693134862315807937289714053034150799341327100378269361737789804449682927647509466int);
    let part_6 = part_5 + "4901797758720709"@;
    lemma_sixteen_more(part_5, "4901797758720709"@);
    assert(digits_value(part_6) == 17976931348623158079372897140530341507993413271003782693617377898044496829276475094664901797758720709int);
    let part_7 = part_6 + "6330286416692887"@;
    lemma_sixteen_more(part_6, "6330286416692887"@);
    assert(digits_value(part_7) == 179769313486231580793728971405303415079934132710037826936173778980444968292764750946649017977587207096330286416692887int);
    let part_8 = part_7 + "9109465555478519"@;
    lemma_sixteen_more(part_7, "9109465555478519"@);
    assert(digits_value(part_8) == 1797693134862315807937289714053034150799341327100378269361737789804449682927647509466490179775872070963302864166928879109465555478519int);
    let part_9 = part_8 + "4040263065748867"@;
    lemma_sixteen_more(part_8, "4040263065748867"@);
    assert(digits_value(part_9) == 17976931348623158079372897140530341507993413271003782693617377898044496829276475094664901797758720709633028641669288791094655554785194040263065748867int);
    let part_10 = part_9 + "1505820681908902"@;
    lemma_sixteen_more(part_9, "1505820681908902"@);
    assert(digits_value(part_10) == 179769313486231580793728971405303415079934132710037826936173778980444968292764750946649017977587207096330286416692887910946555547851940402630657488671505820681908902int);
    let part_11 = part_10 + "0007083836762738"@;
    lemma_sixteen_more(part_10, "0007083836762738"@);
    assert(digits_value(part_11) == 1797693134862315807937289714053034150799341327100378269361737789804449682927647509466490179775872070963302864166928879109465555478519404026306574886715058206819089020007083836762738int);
    let part_12 = part_11 + "5484581771153176"@;
    lemma_sixteen_more(part_11, "5484581771153176"@);
    assert(digits_value(part_12) == 17976931348623158079372897140530341507993413271003782693617377898044496829276475094664901797758720709633028641669288791094655554785194040263065748867150582068190890200070838367627385484581771153176int);
    let part_13 = part_12 + "4475730270069855"@;
    lemma_sixteen_more(part_12, "4475730270069855"@);
    assert(digits_value(part_13) == 179769313486231580793728971405303415079934132710037826936173778980444968292764750946649017977587207096330286416692887910946555547851940402630657488671505820681908902000708383676273854845817711531764475730270069855int);
    let part_14 = part_13 + "5713669596228429"@;
    lemma_sixteen_more(part_13, "5713669596228429"@);
    assert(digits_value(part_14) == 1797693134862315807937289714053034150799341327100378269361737789804449682927647509466490179775872070963302864166928879109465555478519404026306574886715058206819089020007083836762738548458177115317644757302700698555713669596228429int);
    let part_15 = part_14 + "1481986083493647"@;
    lemma_sixteen_more(part_14, "1481986083493647"@);
    assert(digits_value(part_15) == 17976931348623158079372897140530341507993413271003782693617377898044496829276475094664901797758720709633028641669288791094655554785194040263065748867150582068190890200070838367627385484581771153176447573027006985557136695962284291481986083493647int);
    let part_16 = part_15 + "5292719074168444"@;
    lemma_sixteen_more(part_15, "5292719074168444"@);
    assert(digits_value(part_16) == 179769313486231580793728971405303415079934132710037826936173778980444968292764750946649017977587207096330286416692887910946555547851940402630657488671505820681908902000708383676273854845817711531764475730270069855571366959622842914819860834936475292719074168444int);
    let part_17 = part_16 + "3655107043427115"@;
    lemma_sixteen_more(part_16, "3655107043427115"@);
    assert(digits_value(part_17) == 1797693134862315807937289714053034150799341327100378269361737789804449682927647509466490179775872070963302864166928879109465555478519404026306574886715058206819089020007083836762738548458177115317644757302700698555713669596228429148198608349364752927190741684443655107043427115int);
    let part_18 = part_17 + "5969950809304288"@;
    lemma_sixteen_more(part_17, "5969950809304288"@);
    assert(digits_value(part_18) == 17976931348623158079372897140530341507993413271003782693617377898044496829276475094664901797758720709633028641669288791094655554785194040263065748867150582068190890200070838367627385484581771153176447573027006985557136695962284291481986083493647529271907416844436551070434271155969950809304288int);
    let part_19 = part_18 + "0177904174497792"@;
    lemma_sixteen_more(part_18, "0177904174497792"@);
    assert(digits_value(part_19) == 179769313486231580793728971405303415079934132710037826936173778980444968292764750946649017977587207096330286416692887910946555547851940402630657488671505820681908902000708383676273854845817711531764475730270069855571366959622842914819860834936475292719074168444365510704342711559699508093042880177904174497792int);
    assert(FINITE_LIMIT@ =~= part_19) by {
        reveal_strlit(
            "179769313486231580793728971405303415079934132710037826936173778980444968292764750946649017977587207096330286416692887910946555547851940402630657488671505820681908902000708383676273854845817711531764475730270069855571366959622842914819860834936475292719074168444365510704342711559699508093042880177904174497792",
        );
        reveal_strlit("17976");
        reveal_strlit("9313486231580793");
        reveal_strlit("7289714053034150");
        reveal_strlit("7993413271003782");
        reveal_strlit("6936173778980444");
        reveal_strlit("9682927647509466");
        reveal_strlit("4901797758720709");
        reveal_strlit("6330286416692887");
        reveal_strlit("9109465555478519");
        reveal_strlit("4040263065748867");
        reveal_strlit("1505820681908902");
        reveal_strlit("0007083836762738");
        reveal_strlit("5484581771153176");
        reveal_strlit("4475730270069855");
        reveal_strlit("5713669596228429");
        reveal_strlit("1481986083493647");
        reveal_strlit("5292719074168444");
        reveal_strlit("3655107043427115");
        reveal_strlit("5969950809304288");
        reveal_strlit("0177904174497792");
    }
}

} // verus!
