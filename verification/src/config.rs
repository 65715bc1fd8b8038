//! Startup configuration: chain, network, API, storage and consensus
//! parameters, plus the genesis description of a new chain.

use vstd::prelude::*;
use crate::common::str_eq;

verus! {

/// Main blockchain configuration.
#[derive(Debug, Clone)]
pub struct Config {
    /// Chain configuration.
    pub chain: ChainConfig,
    /// Network configuration.
    pub network: NetworkConfig,
    /// API configuration.
    pub api: ApiConfig,
    /// Storage configuration.
    pub storage: StorageConfig,
    /// Consensus configuration.
    pub consensus: ConsensusConfig,
}

/// Chain-specific configuration.
#[derive(Debug, Clone)]
pub struct ChainConfig {
    /// Chain ID.
    pub chain_id: String,
    /// Block time in seconds.
    pub block_time: u64,
    /// Maximum block size in bytes.
    pub max_block_size: u64,
    /// Gas limit per block.
    pub gas_limit: u64,
}

/// Network configuration.
#[derive(Debug, Clone)]
pub struct NetworkConfig {
    /// P2P port.
    pub p2p_port: u16,
    /// RPC port.
    pub rpc_port: u16,
    /// Seeds for peer discovery.
    pub seeds: Vec<String>,
    /// Persistent peers.
    pub persistent_peers: Vec<String>,
    /// Maximum number of peers.
    pub max_peers: u32,
}

/// API configuration.
#[derive(Debug, Clone)]
pub struct ApiConfig {
    /// API server port.
    pub api_port: u16,
    /// Enable CORS.
    pub enable_cors: bool,
    /// Allowed origins.
    pub allowed_origins: Vec<String>,
    /// Rate limiting.
    pub rate_limit: u32,
}

/// Storage configuration.
#[derive(Debug, Clone)]
pub struct StorageConfig {
    /// Database path.
    pub db_path: String,
    /// Database type.
    pub db_type: String,
    /// Cache size in MB.
    pub cache_size: u64,
    /// Enable compression.
    pub enable_compression: bool,
}

/// Consensus configuration.
#[derive(Debug, Clone)]
pub struct ConsensusConfig {
    /// Validator moniker.
    pub moniker: String,
    /// Validator private key path.
    pub validator_key_path: String,
    /// Consensus timeout.
    pub timeout_commit: u64,
    /// Block size limit.
    pub max_block_size_txs: u32,
}

impl Default for ChainConfig {
    fn default() -> (r: Self)
        ensures
            r.block_time == 6,
            r.chain_id@ == "memechain-dev"@,
    {
        ChainConfig {
            chain_id: String::from_str("memechain-dev"),
            block_time: 6,
            max_block_size: 1048576,
            gas_limit: 10_000_000,
        }
    }
}

impl Default for NetworkConfig {
    fn default() -> (r: Self)
        ensures
            r.p2p_port == 26656,
            r.rpc_port == 26657,
    {
        NetworkConfig {
            p2p_port: 26656,
            rpc_port: 26657,
            seeds: Vec::new(),
            persistent_peers: Vec::new(),
            max_peers: 50,
        }
    }
}

impl Default for ApiConfig {
    fn default() -> (r: Self)
        ensures
            r.api_port == 8080,
    {
        let mut origins: Vec<String> = Vec::new();
        origins.push(String::from_str("*"));
        ApiConfig {
            api_port: 8080,
            enable_cors: true,
            allowed_origins: origins,
            rate_limit: 1000,
        }
    }
}

impl Default for StorageConfig {
    fn default() -> (r: Self)
        ensures
            r.db_type@ == "sled"@,
    {
        StorageConfig {
            db_path: String::from_str("./data"),
            db_type: String::from_str("sled"),
            cache_size: 512,
            enable_compression: true,
        }
    }
}

impl Default for ConsensusConfig {
    fn default() -> (r: Self) {
        ConsensusConfig {
            moniker: String::from_str("validator"),
            validator_key_path: String::from_str("./config/priv_validator_key.json"),
            timeout_commit: 5000,
            max_block_size_txs: 10000,
        }
    }
}

impl Default for Config {
    fn default() -> (r: Self)
        ensures
            r.chain.block_time == 6,
    {
        Config {
            chain: ChainConfig::default(),
            network: NetworkConfig::default(),
            api: ApiConfig::default(),
            storage: StorageConfig::default(),
            consensus: ConsensusConfig::default(),
        }
    }
}

/// Whether a database type names a supported backend.
pub fn db_type_supported(db_type: &str) -> (r: bool)
    ensures
        r == (db_type@ == "sled"@ || db_type@ == "memory"@),
{
    proof {
        reveal_strlit("sled");
        reveal_strlit("memory");
    }
    str_eq(db_type, "sled") || str_eq(db_type, "memory")
}

/// Genesis configuration for blockchain initialization.
#[derive(Debug, Clone)]
pub struct GenesisConfig {
    /// Genesis time.
    pub genesis_time: String,
    /// Chain ID.
    pub chain_id: String,
    /// Initial validators.
    pub validators: Vec<Validator>,
    /// Initial accounts.
    pub accounts: Vec<Account>,
    /// App state.
    pub app_state: AppState,
}

/// Validator configuration.
#[derive(Debug, Clone)]
pub struct Validator {
    /// Validator address.
    pub address: String,
    /// Validator public key.
    pub pub_key: String,
    /// Validator power.
    pub power: u64,
    /// Validator name.
    pub name: String,
}

/// Account configuration.
#[derive(Debug, Clone)]
pub struct Account {
    /// Account address.
    pub address: String,
    /// Account balance.
    pub balance: u64,
    /// Account name.
    pub name: String,
}

/// Application state in genesis.
#[derive(Debug, Clone)]
pub struct AppState {
    /// NFT module state.
    pub nft: NftState,
    /// Token module state.
    pub meme: MemeState,
}

/// NFT module genesis state.
#[derive(Debug, Clone)]
pub struct NftState {
    /// Collections.
    pub collections: Vec<Collection>,
}

/// Token module genesis state.
#[derive(Debug, Clone)]
pub struct MemeState {
    /// Tokens.
    pub tokens: Vec<Token>,
}

/// An NFT collection in genesis.
#[derive(Debug, Clone)]
pub struct Collection {
    /// Collection ID.
    pub id: String,
    /// Collection name.
    pub name: String,
    /// Creator address.
    pub creator: String,
    /// Description.
    pub description: String,
}

/// A token in genesis.
#[derive(Debug, Clone)]
pub struct Token {
    /// Token symbol.
    pub symbol: String,
    /// Token name.
    pub name: String,
    /// Total supply.
    pub total_supply: u64,
    /// Creator address.
    pub creator: String,
    /// Anti-rug settings.
    pub anti_rug: crate::types::AntiRugSettings,
}

impl GenesisConfig {
    /// Create a new genesis configuration with one validator and two
    /// funded accounts, stamped with the given genesis time.
    pub fn new(chain_id: String, moniker: String, genesis_time: String) -> (r: Self)
        ensures
            r.chain_id@ == chain_id@,
            r.validators@.len() == 1,
            r.accounts@.len() == 2,
            r.genesis_time@ == genesis_time@,
    {
        let mut validators: Vec<Validator> = Vec::new();
        validators.push(Validator {
            address: String::from_str("memechain1validator"),
            pub_key: String::from_str("memechainvalconspub1"),
            power: 100,
            name: moniker,
        });
        let mut accounts: Vec<Account> = Vec::new();
        accounts.push(Account {
            address: String::from_str("memechain1alice"),
            balance: 1_000_000_000,
            name: String::from_str("alice"),
        });
        accounts.push(Account {
            address: String::from_str("memechain1bob"),
            balance: 1_000_000_000,
            name: String::from_str("bob"),
        });
        GenesisConfig {
            genesis_time,
            chain_id,
            validators,
            accounts,
            app_state: AppState {
                nft: NftState { collections: Vec::new() },
                meme: MemeState { tokens: Vec::new() },
            },
        }
    }
}

} // verus!
