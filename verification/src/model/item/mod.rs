pub mod durability_item;
pub mod simple_item;
pub mod stack_list;
