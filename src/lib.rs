// A small-business ledger: accounts with books of charges and payments whose cached
// debt and balance always equal the sums of the rows below them, a product catalog
// with inventory counts, and the versioned schema of the store that holds them.
pub mod catalog;
pub mod ledger;
pub mod migration;
pub mod pricing;
pub mod statement;
