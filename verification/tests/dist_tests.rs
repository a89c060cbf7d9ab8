use muskat::card::Card;
use muskat::dist::{distribute_colors, ColorDistribution, OpenCards, UnknownCards};

#[test]
fn test_distribution_restrictions() {
    let one_no_hearts = UnknownCards {
        number: 1,
        hearts_possible: false,
        spades_possible: true,
        diamonds_possible: true,
        clubs_possible: true,
        trump_possible: true,
    };

    let open_heart = ColorDistribution {
        hearts: 1,
        spades: 0,
        diamonds: 0,
        clubs: 0,
        trump: 0,
    };

    let open_diamonds = ColorDistribution {
        hearts: 0,
        spades: 0,
        diamonds: 1,
        clubs: 0,
        trump: 0,
    };

    let open_trump = ColorDistribution {
        hearts: 0,
        spades: 0,
        diamonds: 0,
        clubs: 0,
        trump: 1,
    };

    assert!(distribute_colors(&[one_no_hearts], open_heart).is_empty());
    assert_eq!(distribute_colors(&[one_no_hearts], open_diamonds).len(), 1);
    assert_eq!(distribute_colors(&[one_no_hearts], open_trump).len(), 1);
}

#[test]
fn test_initial_distributions() {
    let hand = UnknownCards {
        number: 10,
        hearts_possible: true,
        spades_possible: true,
        diamonds_possible: true,
        clubs_possible: true,
        trump_possible: true,
    };

    let skat = UnknownCards {
        number: 2,
        hearts_possible: true,
        spades_possible: true,
        diamonds_possible: true,
        clubs_possible: true,
        trump_possible: true,
    };

    let unknown_cards_vec = vec![hand, hand, hand, skat];

    let open_hearts = ColorDistribution {
        hearts: 0,
        spades: 7,
        diamonds: 7,
        clubs: 7,
        trump: 11,
    };

    let open_spades = ColorDistribution {
        hearts: 7,
        spades: 0,
        diamonds: 7,
        clubs: 7,
        trump: 11,
    };

    let open_diamonds = ColorDistribution {
        hearts: 7,
        spades: 7,
        diamonds: 0,
        clubs: 7,
        trump: 11,
    };

    let open_clubs = ColorDistribution {
        hearts: 7,
        spades: 7,
        diamonds: 7,
        clubs: 0,
        trump: 11,
    };

    let open_grand = ColorDistribution {
        hearts: 7,
        spades: 7,
        diamonds: 7,
        clubs: 7,
        trump: 4,
    };

    let open_null = ColorDistribution {
        hearts: 8,
        spades: 8,
        diamonds: 8,
        clubs: 8,
        trump: 0,
    };

    assert_eq!(
        distribute_colors(&unknown_cards_vec, open_clubs).len(),
        205_557
    );

    assert_eq!(
        distribute_colors(&unknown_cards_vec, open_diamonds).len(),
        205_557
    );

    assert_eq!(
        distribute_colors(&unknown_cards_vec, open_spades).len(),
        205_557
    );

    assert_eq!(
        distribute_colors(&unknown_cards_vec, open_hearts).len(),
        205_557
    );

    assert_eq!(
        distribute_colors(&unknown_cards_vec, open_grand).len(),
        2_337_894
    );

    assert_eq!(
        distribute_colors(&unknown_cards_vec, open_null).len(),
        248_358
    );
}

#[test]
fn test_distribution_sl003() {
    let hand = UnknownCards {
        number: 10,
        hearts_possible: true,
        spades_possible: true,
        diamonds_possible: true,
        clubs_possible: true,
        trump_possible: true,
    };

    let unknown_cards_vec = vec![hand, hand];

    let open = ColorDistribution {
        hearts: 5,
        spades: 6,
        diamonds: 4,
        clubs: 0,
        trump: 5,
    };

    assert_eq!(distribute_colors(&unknown_cards_vec, open).len(), 140);
}

#[test]
fn test_distribution_correct_numbers() {
    let unknown_cards_vec = vec![
        UnknownCards {
            number: 1,
            hearts_possible: true,
            spades_possible: false,
            diamonds_possible: true,
            clubs_possible: true,
            trump_possible: false,
        },
        UnknownCards {
            number: 2,
            hearts_possible: true,
            spades_possible: false,
            diamonds_possible: false,
            clubs_possible: false,
            trump_possible: false,
        },
        UnknownCards {
            number: 2,
            hearts_possible: true,
            spades_possible: true,
            diamonds_possible: true,
            clubs_possible: true,
            trump_possible: true,
        },
        UnknownCards {
            number: 3,
            hearts_possible: true,
            spades_possible: true,
            diamonds_possible: true,
            clubs_possible: false,
            trump_possible: false,
        },
    ];

    let right_amount = ColorDistribution {
        hearts: 3,
        spades: 2,
        diamonds: 1,
        clubs: 1,
        trump: 1,
    };

    let too_few = ColorDistribution {
        hearts: 2,
        spades: 2,
        diamonds: 1,
        clubs: 1,
        trump: 1,
    };

    let too_many = ColorDistribution {
        hearts: 4,
        spades: 2,
        diamonds: 1,
        clubs: 1,
        trump: 1,
    };

    assert!(distribute_colors(&unknown_cards_vec, too_few).is_empty());
    assert!(distribute_colors(&unknown_cards_vec, too_many).is_empty(),);

    let color_distributions_vec = distribute_colors(&unknown_cards_vec, right_amount);

    assert_eq!(color_distributions_vec.len(), 5);

    let open_cards = OpenCards {
        hearts: vec![Card::H7, Card::H8, Card::H9],
        spades: vec![Card::G7, Card::GZ],
        diamonds: vec![Card::SK],
        clubs: vec![Card::EA],
        trump: vec![Card::EU],
    };

    for color_distributions in color_distributions_vec {
        assert_eq!(
            color_distributions.get_all_possibilities(&open_cards).len(),
            color_distributions.number_of_possibilities()
        );
    }
}
