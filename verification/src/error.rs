//! Error taxonomy of the ledger: validation failures, missing entities,
//! conflicts, insufficient balances, rate limiting, and storage or
//! serialization faults.

use vstd::prelude::*;

verus! {

/// Main error type of the ledger.
#[derive(Debug, Clone)]
pub enum MemeChainError {
    Config(ConfigError),
    Storage(StorageError),
    Module(ModuleError),
    Network(NetworkError),
    Validation(String),
    Serialization(String),
    Database(String),
    InvalidAddress(String),
    InsufficientBalance(String),
    TokenNotFound(String),
    NftNotFound(String),
    CollectionNotFound(String),
    Unauthorized(String),
    RateLimitExceeded,
    TransactionFailed(String),
    Blockchain(String),
}

/// Configuration-related errors.
#[derive(Debug, Clone)]
pub enum ConfigError {
    LoadFailed(String),
    Invalid(String),
    MissingField(String),
    InvalidGenesis(String),
}

/// Storage-related errors.
#[derive(Debug, Clone)]
pub enum StorageError {
    ConnectionFailed(String),
    KeyNotFound(String),
    WriteFailed(String),
    ReadFailed(String),
    TransactionFailed(String),
    CorruptedData(String),
}

/// Module-related errors.
#[derive(Debug, Clone)]
pub enum ModuleError {
    Nft(NftError),
    Meme(MemeError),
    Common(CommonError),
}

/// NFT module errors.
#[derive(Debug, Clone)]
pub enum NftError {
    CollectionExists(String),
    CollectionNotFound(String),
    NftExists(String),
    NftNotFound(String),
    InvalidMetadata(String),
    TransferFailed(String),
    Unauthorized(String),
    InvalidCollectionId(String),
    InvalidNftId(String),
}

/// Token module errors.
#[derive(Debug, Clone)]
pub enum MemeError {
    TokenExists(String),
    TokenNotFound(String),
    InvalidSymbol(String),
    InvalidName(String),
    InvalidSupply(String),
    TransferFailed(String),
    InsufficientBalance(String),
    MaxWalletLimitExceeded(String),
    TaxCalculationFailed(String),
    LiquidityNotLocked(String),
    LockPeriodNotExpired(String),
    InvalidAntiRugSettings(String),
}

/// Common module errors.
#[derive(Debug, Clone)]
pub enum CommonError {
    InvalidAddress(String),
    InvalidAmount(String),
    InvalidSignature(String),
    InvalidPublicKey(String),
    InvalidPrivateKey(String),
    HashCalculationFailed(String),
    EncryptionFailed(String),
    DecryptionFailed(String),
}

/// Network-related errors.
#[derive(Debug, Clone)]
pub enum NetworkError {
    ConnectionFailed(String),
    Timeout(String),
    PeerNotFound(String),
    InvalidMessage(String),
    HandshakeFailed(String),
    ProtocolError(String),
}

/// Result alias used throughout the ledger.
pub type ChainResult<T> = Result<T, MemeChainError>;

impl NftError {
    /// Wrap into the main error type.
    pub fn wrap(self) -> (r: MemeChainError)
        ensures
            r == MemeChainError::Module(ModuleError::Nft(self)),
    {
        MemeChainError::Module(ModuleError::Nft(self))
    }
}

impl MemeError {
    /// Wrap into the main error type.
    pub fn wrap(self) -> (r: MemeChainError)
        ensures
            r == MemeChainError::Module(ModuleError::Meme(self)),
    {
        MemeChainError::Module(ModuleError::Meme(self))
    }
}

impl CommonError {
    /// Wrap into the main error type.
    pub fn wrap(self) -> (r: MemeChainError)
        ensures
            r == MemeChainError::Module(ModuleError::Common(self)),
    {
        MemeChainError::Module(ModuleError::Common(self))
    }
}

impl NftError {
    pub open spec fn spec_message(&self) -> Seq<char> {
        match self {
            NftError::CollectionExists(s) => "collection already exists: "@ + s@,
            NftError::CollectionNotFound(s) => "collection not found: "@ + s@,
            NftError::NftExists(s) => "nft already exists: "@ + s@,
            NftError::NftNotFound(s) => "nft not found: "@ + s@,
            NftError::InvalidMetadata(s) => "invalid metadata: "@ + s@,
            NftError::TransferFailed(s) => "transfer failed: "@ + s@,
            NftError::Unauthorized(s) => "unauthorized operation: "@ + s@,
            NftError::InvalidCollectionId(s) => "invalid collection id: "@ + s@,
            NftError::InvalidNftId(s) => "invalid nft id: "@ + s@,
        }
    }

    /// Human-readable message for this error.
    pub fn to_message(&self) -> (r: String)
        ensures
            r@ == self.spec_message(),
    {
        match self {
            NftError::CollectionExists(s) => String::from_str("collection already exists: ").concat(s.as_str()),
            NftError::CollectionNotFound(s) => String::from_str("collection not found: ").concat(s.as_str()),
            NftError::NftExists(s) => String::from_str("nft already exists: ").concat(s.as_str()),
            NftError::NftNotFound(s) => String::from_str("nft not found: ").concat(s.as_str()),
            NftError::InvalidMetadata(s) => String::from_str("invalid metadata: ").concat(s.as_str()),
            NftError::TransferFailed(s) => String::from_str("transfer failed: ").concat(s.as_str()),
            NftError::Unauthorized(s) => String::from_str("unauthorized operation: ").concat(s.as_str()),
            NftError::InvalidCollectionId(s) => String::from_str("invalid collection id: ").concat(s.as_str()),
            NftError::InvalidNftId(s) => String::from_str("invalid nft id: ").concat(s.as_str()),
        }
    }
}

impl MemeError {
    pub open spec fn spec_message(&self) -> Seq<char> {
        match self {
            MemeError::TokenExists(s) => "token already exists: "@ + s@,
            MemeError::TokenNotFound(s) => "token not found: "@ + s@,
            MemeError::InvalidSymbol(s) => "invalid token symbol: "@ + s@,
            MemeError::InvalidName(s) => "invalid token name: "@ + s@,
            MemeError::InvalidSupply(s) => "invalid supply: "@ + s@,
            MemeError::TransferFailed(s) => "transfer failed: "@ + s@,
            MemeError::InsufficientBalance(s) => "insufficient balance: "@ + s@,
            MemeError::MaxWalletLimitExceeded(s) => "max wallet limit exceeded: "@ + s@,
            MemeError::TaxCalculationFailed(s) => "tax calculation failed: "@ + s@,
            MemeError::LiquidityNotLocked(s) => "liquidity not locked: "@ + s@,
            MemeError::LockPeriodNotExpired(s) => "lock period not expired: "@ + s@,
            MemeError::InvalidAntiRugSettings(s) => "invalid anti-rug settings: "@ + s@,
        }
    }

    /// Human-readable message for this error.
    pub fn to_message(&self) -> (r: String)
        ensures
            r@ == self.spec_message(),
    {
        match self {
            MemeError::TokenExists(s) => String::from_str("token already exists: ").concat(s.as_str()),
            MemeError::TokenNotFound(s) => String::from_str("token not found: ").concat(s.as_str()),
            MemeError::InvalidSymbol(s) => String::from_str("invalid token symbol: ").concat(s.as_str()),
            MemeError::InvalidName(s) => String::from_str("invalid token name: ").concat(s.as_str()),
            MemeError::InvalidSupply(s) => String::from_str("invalid supply: ").concat(s.as_str()),
            MemeError::TransferFailed(s) => String::from_str("transfer failed: ").concat(s.as_str()),
            MemeError::InsufficientBalance(s) => String::from_str("insufficient balance: ").concat(s.as_str()),
            MemeError::MaxWalletLimitExceeded(s) => String::from_str("max wallet limit exceeded: ").concat(s.as_str()),
            MemeError::TaxCalculationFailed(s) => String::from_str("tax calculation failed: ").concat(s.as_str()),
            MemeError::LiquidityNotLocked(s) => String::from_str("liquidity not locked: ").concat(s.as_str()),
            MemeError::LockPeriodNotExpired(s) => String::from_str("lock period not expired: ").concat(s.as_str()),
            MemeError::InvalidAntiRugSettings(s) => String::from_str("invalid anti-rug settings: ").concat(s.as_str()),
        }
    }
}

impl CommonError {
    pub open spec fn spec_message(&self) -> Seq<char> {
        match self {
            CommonError::InvalidAddress(s) => "invalid address format: "@ + s@,
            CommonError::InvalidAmount(s) => "invalid amount: "@ + s@,
            CommonError::InvalidSignature(s) => "invalid signature: "@ + s@,
            CommonError::InvalidPublicKey(s) => "invalid public key: "@ + s@,
            CommonError::InvalidPrivateKey(s) => "invalid private key: "@ + s@,
            CommonError::HashCalculationFailed(s) => "hash calculation failed: "@ + s@,
            CommonError::EncryptionFailed(s) => "encryption failed: "@ + s@,
            CommonError::DecryptionFailed(s) => "decryption failed: "@ + s@,
        }
    }

    /// Human-readable message for this error.
    pub fn to_message(&self) -> (r: String)
        ensures
            r@ == self.spec_message(),
    {
        match self {
            CommonError::InvalidAddress(s) => String::from_str("invalid address format: ").concat(s.as_str()),
            CommonError::InvalidAmount(s) => String::from_str("invalid amount: ").concat(s.as_str()),
            CommonError::InvalidSignature(s) => String::from_str("invalid signature: ").concat(s.as_str()),
            CommonError::InvalidPublicKey(s) => String::from_str("invalid public key: ").concat(s.as_str()),
            CommonError::InvalidPrivateKey(s) => String::from_str("invalid private key: ").concat(s.as_str()),
            CommonError::HashCalculationFailed(s) => String::from_str("hash calculation failed: ").concat(s.as_str()),
            CommonError::EncryptionFailed(s) => String::from_str("encryption failed: ").concat(s.as_str()),
            CommonError::DecryptionFailed(s) => String::from_str("decryption failed: ").concat(s.as_str()),
        }
    }
}

impl StorageError {
    pub open spec fn spec_message(&self) -> Seq<char> {
        match self {
            StorageError::ConnectionFailed(s) => "database connection failed: "@ + s@,
            StorageError::KeyNotFound(s) => "key not found: "@ + s@,
            StorageError::WriteFailed(s) => "write failed: "@ + s@,
            StorageError::ReadFailed(s) => "read failed: "@ + s@,
            StorageError::TransactionFailed(s) => "transaction failed: "@ + s@,
            StorageError::CorruptedData(s) => "corrupted data: "@ + s@,
        }
    }

    /// Human-readable message for this error.
    pub fn to_message(&self) -> (r: String)
        ensures
            r@ == self.spec_message(),
    {
        match self {
            StorageError::ConnectionFailed(s) => String::from_str("database connection failed: ").concat(s.as_str()),
            StorageError::KeyNotFound(s) => String::from_str("key not found: ").concat(s.as_str()),
            StorageError::WriteFailed(s) => String::from_str("write failed: ").concat(s.as_str()),
            StorageError::ReadFailed(s) => String::from_str("read failed: ").concat(s.as_str()),
            StorageError::TransactionFailed(s) => String::from_str("transaction failed: ").concat(s.as_str()),
            StorageError::CorruptedData(s) => String::from_str("corrupted data: ").concat(s.as_str()),
        }
    }
}

impl ConfigError {
    pub open spec fn spec_message(&self) -> Seq<char> {
        match self {
            ConfigError::LoadFailed(s) => "failed to load config file: "@ + s@,
            ConfigError::Invalid(s) => "invalid configuration: "@ + s@,
            ConfigError::MissingField(s) => "missing required field: "@ + s@,
            ConfigError::InvalidGenesis(s) => "invalid genesis configuration: "@ + s@,
        }
    }

    /// Human-readable message for this error.
    pub fn to_message(&self) -> (r: String)
        ensures
            r@ == self.spec_message(),
    {
        match self {
            ConfigError::LoadFailed(s) => String::from_str("failed to load config file: ").concat(s.as_str()),
            ConfigError::Invalid(s) => String::from_str("invalid configuration: ").concat(s.as_str()),
            ConfigError::MissingField(s) => String::from_str("missing required field: ").concat(s.as_str()),
            ConfigError::InvalidGenesis(s) => String::from_str("invalid genesis configuration: ").concat(s.as_str()),
        }
    }
}

impl NetworkError {
    pub open spec fn spec_message(&self) -> Seq<char> {
        match self {
            NetworkError::ConnectionFailed(s) => "connection failed: "@ + s@,
            NetworkError::Timeout(s) => "timeout: "@ + s@,
            NetworkError::PeerNotFound(s) => "peer not found: "@ + s@,
            NetworkError::InvalidMessage(s) => "invalid message: "@ + s@,
            NetworkError::HandshakeFailed(s) => "handshake failed: "@ + s@,
            NetworkError::ProtocolError(s) => "protocol error: "@ + s@,
        }
    }

    /// Human-readable message for this error.
    pub fn to_message(&self) -> (r: String)
        ensures
            r@ == self.spec_message(),
    {
        match self {
            NetworkError::ConnectionFailed(s) => String::from_str("connection failed: ").concat(s.as_str()),
            NetworkError::Timeout(s) => String::from_str("timeout: ").concat(s.as_str()),
            NetworkError::PeerNotFound(s) => String::from_str("peer not found: ").concat(s.as_str()),
            NetworkError::InvalidMessage(s) => String::from_str("invalid message: ").concat(s.as_str()),
            NetworkError::HandshakeFailed(s) => String::from_str("handshake failed: ").concat(s.as_str()),
            NetworkError::ProtocolError(s) => String::from_str("protocol error: ").concat(s.as_str()),
        }
    }
}

impl ModuleError {
    pub open spec fn spec_message(&self) -> Seq<char> {
        match self {
            ModuleError::Nft(e) => "nft module error: "@ + e.spec_message(),
            ModuleError::Meme(e) => "meme module error: "@ + e.spec_message(),
            ModuleError::Common(e) => "common module error: "@ + e.spec_message(),
        }
    }

    /// Human-readable message for this error.
    pub fn to_message(&self) -> (r: String)
        ensures
            r@ == self.spec_message(),
    {
        match self {
            ModuleError::Nft(e) => String::from_str("nft module error: ").concat(e.to_message().as_str()),
            ModuleError::Meme(e) => String::from_str("meme module error: ").concat(e.to_message().as_str()),
            ModuleError::Common(e) => String::from_str("common module error: ").concat(e.to_message().as_str()),
        }
    }
}

impl MemeChainError {
    pub open spec fn spec_message(&self) -> Seq<char> {
        match self {
            MemeChainError::Config(e) => "configuration error: "@ + e.spec_message(),
            MemeChainError::Storage(e) => "storage error: "@ + e.spec_message(),
            MemeChainError::Module(e) => "module error: "@ + e.spec_message(),
            MemeChainError::Network(e) => "network error: "@ + e.spec_message(),
            MemeChainError::Validation(s) => "validation error: "@ + s@,
            MemeChainError::Serialization(s) => "serialization error: "@ + s@,
            MemeChainError::Database(s) => "database error: "@ + s@,
            MemeChainError::InvalidAddress(s) => "invalid address: "@ + s@,
            MemeChainError::InsufficientBalance(s) => "insufficient balance: "@ + s@,
            MemeChainError::TokenNotFound(s) => "token not found: "@ + s@,
            MemeChainError::NftNotFound(s) => "nft not found: "@ + s@,
            MemeChainError::CollectionNotFound(s) => "collection not found: "@ + s@,
            MemeChainError::Unauthorized(s) => "unauthorized: "@ + s@,
            MemeChainError::RateLimitExceeded => "rate limit exceeded"@,
            MemeChainError::TransactionFailed(s) => "transaction failed: "@ + s@,
            MemeChainError::Blockchain(s) => "blockchain error: "@ + s@,
        }
    }

    /// Human-readable message for this error.
    pub fn to_message(&self) -> (r: String)
        ensures
            r@ == self.spec_message(),
    {
        match self {
            MemeChainError::Config(e) => String::from_str("configuration error: ").concat(e.to_message().as_str()),
            MemeChainError::Storage(e) => String::from_str("storage error: ").concat(e.to_message().as_str()),
            MemeChainError::Module(e) => String::from_str("module error: ").concat(e.to_message().as_str()),
            MemeChainError::Network(e) => String::from_str("network error: ").concat(e.to_message().as_str()),
            MemeChainError::Validation(s) => String::from_str("validation error: ").concat(s.as_str()),
            MemeChainError::Serialization(s) => String::from_str("serialization error: ").concat(s.as_str()),
            MemeChainError::Database(s) => String::from_str("database error: ").concat(s.as_str()),
            MemeChainError::InvalidAddress(s) => String::from_str("invalid address: ").concat(s.as_str()),
            MemeChainError::InsufficientBalance(s) => String::from_str("insufficient balance: ").concat(s.as_str()),
            MemeChainError::TokenNotFound(s) => String::from_str("token not found: ").concat(s.as_str()),
            MemeChainError::NftNotFound(s) => String::from_str("nft not found: ").concat(s.as_str()),
            MemeChainError::CollectionNotFound(s) => String::from_str("collection not found: ").concat(s.as_str()),
            MemeChainError::Unauthorized(s) => String::from_str("unauthorized: ").concat(s.as_str()),
            MemeChainError::RateLimitExceeded => String::from_str("rate limit exceeded"),
            MemeChainError::TransactionFailed(s) => String::from_str("transaction failed: ").concat(s.as_str()),
            MemeChainError::Blockchain(s) => String::from_str("blockchain error: ").concat(s.as_str()),
        }
    }
}

} // verus!
