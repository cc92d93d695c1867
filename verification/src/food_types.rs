//! Identity of a piece of food: its flavor, texture and kind.
//!
//! These are plain value types consumed by the food economy around the core;
//! the core itself never inspects them.

use vstd::prelude::*;

verus! {

/// The full identity of one food item.
#[derive(Clone, Copy, Debug, Eq, Hash, PartialEq, Structural)]
pub struct FoodId {
    pub flavor: FoodFlavor,
    pub texture: FoodTexture,
    pub food_type: FoodType,
}

impl FoodId {
    pub fn new(flavor: FoodFlavor, texture: FoodTexture, food_type: FoodType) -> (r: Self)
        ensures
            r.flavor == flavor,
            r.texture == texture,
            r.food_type == food_type,
    {
        FoodId { flavor, texture, food_type }
    }
}

#[derive(Clone, Copy, Debug, Eq, Hash, PartialEq, Structural)]
pub enum FoodFlavor {
    Bitter,
    Salty,
    Sour,
    Spicy,
    Sweet,
    Tasteless,
    Tasty,
}

#[derive(Clone, Copy, Debug, Eq, Hash, PartialEq, Structural)]
pub enum FoodTexture {
    Burnt,
    Chewy,
    Crunchy,
    Dry,
    Frozen,
    Juicy,
    Melted,
    Raw,
    Ripe,
    Rotten,
    Smooth,
    Soggy,
    Sticky,
}

#[derive(Clone, Copy, Debug, Eq, Hash, PartialEq, Structural)]
pub enum FoodType {
    Almond,
    Anchovy,
    Apple,
    Avocado,
    Bacon,
    Banana,
    Bean,
    Bocadillo,
    Bread,
    Broccoli,
    Burger,
    Cabbage,
    Cake,
    Cantaloupe,
    Carrot,
    Cashew,
    Cauliflower,
    Caviar,
    Cheese,
    Chicken,
    Chips,
    Chocolate,
    Clam,
    Cocada,
    Coconut,
    Cod,
    Coffee,
    Corn,
    Crab,
    Cucumber,
    Curry,
    Egg,
    Eggplant,
    Emu,
    Fish,
    Fly,
    Frog,
    Garlic,
    Grape,
    Grapefruit,
    Ham,
    Hazelnut,
    Herring,
    Honey,
    Honeydew,
    Ice,
    IceCream,
    Kangaroo,
    Ketchup,
    Kiwi,
    Lemon,
    Lettuce,
    Lobster,
    Lychee,
    Mackerel,
    Mango,
    Manure,
    Mayonnaise,
    Meat,
    MedicinePill,
    Milk,
    Mushroom,
    Mustard,
    Noodles,
    Olive,
    Onion,
    Orange,
    Oyster,
    Papaya,
    Pasta,
    Peach,
    Peanut,
    Pear,
    Pepper,
    Pepperoni,
    Pickle,
    Pineapple,
    Pistachio,
    Pizza,
    Plum,
    Potato,
    Prosciutto,
    Rice,
    Salad,
    Salami,
    Salmon,
    Sardine,
    Sauce,
    Sausage,
    Shrimp,
    Snail,
    Soup,
    Spinach,
    Steak,
    Strawberry,
    Sugar,
    Sushi,
    TamTim,
    Tofu,
    Tomato,
    Trout,
    Tuna,
    Vegemite,
    Walnut,
    Water,
    Watermelon,
    Worm,
    Yogurt,
}

} // verus!
