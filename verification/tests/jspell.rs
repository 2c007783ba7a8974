use jabba_lib::jspell::spell_number;

#[test]
fn spell_number_test1() {
    assert_eq!(spell_number(0), "zero");
    assert_eq!(spell_number(0), "zero");
    assert_eq!(spell_number(1), "one");
    assert_eq!(spell_number(2), "two");
    assert_eq!(spell_number(3), "three");
    assert_eq!(spell_number(4), "four");
    assert_eq!(spell_number(5), "five");
    assert_eq!(spell_number(6), "six");
    assert_eq!(spell_number(7), "seven");
    assert_eq!(spell_number(8), "eight");
    assert_eq!(spell_number(9), "nine");
    assert_eq!(spell_number(10), "ten");
    assert_eq!(spell_number(11), "eleven");
    assert_eq!(spell_number(12), "twelve");
    assert_eq!(spell_number(13), "thirteen");
    assert_eq!(spell_number(14), "fourteen");
    assert_eq!(spell_number(15), "fifteen");
    assert_eq!(spell_number(16), "sixteen");
    assert_eq!(spell_number(17), "seventeen");
    assert_eq!(spell_number(18), "eighteen");
    assert_eq!(spell_number(19), "nineteen");
    assert_eq!(spell_number(20), "twenty");
    assert_eq!(spell_number(30), "thirty");
    assert_eq!(spell_number(40), "forty");
    assert_eq!(spell_number(50), "fifty");
    assert_eq!(spell_number(60), "sixty");
    assert_eq!(spell_number(70), "seventy");
    assert_eq!(spell_number(80), "eighty");
    assert_eq!(spell_number(90), "ninety");
    assert_eq!(spell_number(100), "one hundred");
    assert_eq!(spell_number(1000), "one thousand");
    //
    assert_eq!(spell_number(115), "one hundred and fifteen");
    assert_eq!(spell_number(342), "three hundred and forty-two");
}

#[test]
fn spell_number_test2() {
    let mut sb = String::new();
    for n in 1..1000 + 1 {
        sb.push_str(&spell_number(n));
    }
    sb = sb.replace(" ", "").replace("-", "");
    assert_eq!(sb.len(), 21124);
}

#[test]
fn spell_number_of_each_shape() {
    assert_eq!(spell_number(21), "twenty-one");
    assert_eq!(spell_number(42), "forty-two");
    assert_eq!(spell_number(99), "ninety-nine");
    assert_eq!(spell_number(101), "one hundred and one");
    assert_eq!(spell_number(105), "one hundred and five");
    assert_eq!(spell_number(110), "one hundred and ten");
    assert_eq!(spell_number(120), "one hundred and twenty");
    assert_eq!(spell_number(200), "two hundred");
    assert_eq!(spell_number(900), "nine hundred");
    assert_eq!(spell_number(999), "nine hundred and ninety-nine");
}

#[test]
fn spell_number_places_and_and_hyphen() {
    for n in 0..=1000u32 {
        let text = spell_number(n);
        let has_and = text.contains(" and ");
        assert_eq!(has_and, n >= 100 && n < 1000 && n % 100 != 0);
        let has_hyphen = text.contains('-');
        let below = n % 100;
        assert_eq!(has_hyphen, n < 1000 && below > 20 && below % 10 != 0);
    }
}
