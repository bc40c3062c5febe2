use riblt::{CodedSymbol, Direction, PeelableResult, SimpleSymbol};

#[test]
fn test_symbol() {
    let symbol1 = SimpleSymbol { value: 42 };
    let symbol2 = SimpleSymbol { value: 100 };

    let mut coded_symbol = CodedSymbol::new();

    println!("0 is peelable {}", coded_symbol.is_peelable());
    assert_eq!(coded_symbol.is_peelable(), false);

    coded_symbol.apply(&symbol1, Direction::Add);
    println!("1 is peelable {}", coded_symbol.is_peelable());
    assert_eq!(coded_symbol.is_peelable(), true);

    coded_symbol.apply(&symbol2, Direction::Add);
    println!("2 is peelable {}", coded_symbol.is_peelable());
    assert_eq!(coded_symbol.is_peelable(), false);

    coded_symbol.apply(&symbol1, Direction::Remove);
    println!("3 is peelable {}", coded_symbol.is_peelable());
    assert_eq!(coded_symbol.is_peelable(), true);

    println!("CodedSymbol: {:?}", coded_symbol);

    let peeled_symbol = coded_symbol.peel();
    match peeled_symbol {
        PeelableResult::Local(symbol) => {
            println!("Peeled Local Symbol: {:?}", symbol);
            assert_eq!(symbol.value, symbol2.value);
        }
        PeelableResult::Remote(symbol) => {
            println!("Peeled Remote Symbol: {:?}", symbol);
            assert_eq!(symbol.value, symbol2.value);
        }
        PeelableResult::NotPeelable => {
            println!("No symbol to peel");
            assert!(false);
        }
    }
}
